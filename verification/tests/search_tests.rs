//! Tests of the search driver: the try_move protocol, deduplication,
//! the trivial-win and deadlock scenarios, the automove short-circuit,
//! and cancellation.

use std::sync::atomic::AtomicBool;
use solitaire::card::encode;
use solitaire::games::GameKind;
use solitaire::klondike::{klondike_generate, deal_klondike};
use solitaire::search::{State, SolveOutcome, solve, set_should_stop, get_should_stop};
use solitaire::solver::{MoveInstruction, SolverError, create_move};
use solitaire::dedup::state_set_len;
use solitaire::klondike::klondike_safe_automove;

fn empty_klondike() -> Vec<Vec<u8>> {
    let mut piles: Vec<Vec<u8>> = Vec::new();
    for _ in 0..13 {
        piles.push(Vec::new());
    }
    piles
}

#[test]
fn trivial_win_is_solved_in_one_generated_move() {
    // Two piles: one ace on an otherwise empty play pile, and a
    // matching empty foundation pile.
    let game = GameKind::OneFoundation { play_piles: 1 };
    let piles = vec![vec![encode(0, 0, false)], Vec::new()];
    let flag = AtomicBool::new(false);
    match solve(game, &piles, &flag) {
        SolveOutcome::Solved(history) => {
            assert_eq!(history.len(), 1);
            assert_eq!(history[0].origin_stack, 0);
            assert_eq!(history[0].destination_stack, 1);
            assert_eq!(history[0].card, encode(0, 0, false));
        },
        other => panic!("expected a one-move solution, got {:?}", other),
    }
}

#[test]
fn klondike_automove_is_filed_first_and_alone() {
    // A tableau with an exposed 2 of clubs, and the clubs foundation
    // already holding the ace: the 2-of-clubs transfer must be the very
    // next proposed move, before any other candidate is filed.
    let mut piles = empty_klondike();
    piles[0] = vec![encode(0, 1, false)];
    piles[7] = vec![encode(0, 0, false)];
    // A distraction: a tableau-to-tableau move would also be possible.
    piles[1] = vec![encode(2, 5, true), encode(1, 2, false)];
    piles[2] = vec![encode(2, 3, false)];
    let mut state = State::new(GameKind::Klondike, piles);
    klondike_generate(&mut state);
    assert!(state.nodes.len() >= 1);
    let first = state.nodes[0].move_option;
    assert_eq!(first.origin_stack, 0);
    assert_eq!(first.destination_stack, 7);
    assert_eq!(first.card, encode(0, 1, false));
    // The automove short-circuits generation: nothing else was filed.
    assert_eq!(state.nodes.len(), 1);
}

#[test]
fn unsolvable_deadlock_returns_no_moves() {
    // All foundations empty, both tableau tops blocked by matching
    // colours, stock and waste empty: the generator proposes nothing.
    let mut piles = empty_klondike();
    piles[0] = vec![encode(0, 4, false)];
    piles[1] = vec![encode(2, 5, false)];
    let flag = AtomicBool::new(false);
    match solve(GameKind::Klondike, &piles, &flag) {
        SolveOutcome::NoMoves => {},
        other => panic!("expected no moves, got {:?}", other),
    }
}

#[test]
fn cancellation_answers_before_any_expansion() {
    let mut piles = empty_klondike();
    piles[0] = vec![encode(0, 1, false)];
    piles[7] = vec![encode(0, 0, false)];
    let flag = AtomicBool::new(false);
    set_should_stop(&flag, true);
    assert!(get_should_stop(&flag));
    match solve(GameKind::Klondike, &piles, &flag) {
        SolveOutcome::Cancelled => {},
        other => panic!("expected cancellation, got {:?}", other),
    }
    set_should_stop(&flag, false);
    assert!(!get_should_stop(&flag));
}

#[test]
fn klondike_endgame_is_solved() {
    // Every foundation already reaches the queen; the four kings sit
    // exposed on tableau columns. Four automoves win.
    let mut piles = empty_klondike();
    for suit in 0..4u8 {
        let mut foundation = Vec::new();
        for rank in 0..12u8 {
            foundation.push(encode(suit, rank, false));
        }
        piles[7 + suit as usize] = foundation;
        piles[suit as usize] = vec![encode(suit, 12, false)];
    }
    let flag = AtomicBool::new(false);
    match solve(GameKind::Klondike, &piles, &flag) {
        SolveOutcome::Solved(history) => {
            assert_eq!(history.len(), 4);
            for m in &history {
                assert_eq!(m.card % 13, 12);
                assert!(m.destination_stack >= 7 && m.destination_stack < 11);
            }
        },
        other => panic!("expected a solution, got {:?}", other),
    }
}

#[test]
fn try_move_deduplicates_seen_states() {
    // Filing the same candidate twice creates exactly one node, and one
    // seen state per node.
    let game = GameKind::OneFoundation { play_piles: 2 };
    let piles = vec![vec![encode(0, 0, false)], vec![encode(1, 0, false)], Vec::new()];
    let before = piles.clone();
    let mut state = State::new(game, piles);
    let mv = create_move(0, &encode(0, 0, false), 2, MoveInstruction::Plain);
    assert_eq!(state.try_move(mv, 1), Ok(true));
    let mv_again = create_move(0, &encode(0, 0, false), 2, MoveInstruction::Plain);
    assert_eq!(state.try_move(mv_again, 1), Ok(false));
    assert_eq!(state.nodes.len(), 1);
    assert_eq!(state_set_len(&state.states), state.nodes.len());
    // The apply/snapshot/undo discipline left the live piles untouched.
    assert_eq!(state.game_state, before);
}

#[test]
fn try_move_refuses_invalid_moves() {
    let game = GameKind::OneFoundation { play_piles: 1 };
    let piles = vec![vec![encode(0, 0, false)], Vec::new()];
    let mut state = State::new(game, piles);
    let same = create_move(1, &encode(0, 0, false), 1, MoveInstruction::Plain);
    assert_eq!(state.try_move(same, 1), Err(SolverError::SameStack));
    let out = create_move(0, &encode(0, 0, false), 9, MoveInstruction::Plain);
    assert_eq!(state.try_move(out, 1), Err(SolverError::StackOutOfRange));
    let missing = create_move(0, &encode(3, 7, false), 1, MoveInstruction::Plain);
    assert_eq!(state.try_move(missing, 1), Err(SolverError::CardNotFound));
    assert_eq!(state.nodes.len(), 0);
}

#[test]
fn dealt_layout_has_klondike_shape() {
    let mut deck = Vec::new();
    for id in 0..52u8 {
        deck.push(id);
    }
    let piles = deal_klondike(&deck);
    assert_eq!(piles.len(), 13);
    let mut taken = 0usize;
    for p in 0..7 {
        assert_eq!(piles[p].len(), p + 1);
        for j in 0..p {
            // Buried tableau cards lie face down, in deck order.
            assert_eq!(piles[p][j], deck[taken + j] + 128);
        }
        // The top card of each column lies face up.
        assert_eq!(piles[p][p], deck[taken + p]);
        taken += p + 1;
    }
    for p in 7..12 {
        assert_eq!(piles[p].len(), 0);
    }
    assert_eq!(piles[12].len(), 24);
    for j in 0..24 {
        assert_eq!(piles[12][j], deck[28 + j] + 128);
    }
}

#[test]
fn dealt_klondike_runs_through_the_solver() {
    // A fixed (unshuffled) deck: the solver must terminate with some
    // outcome without panicking, whatever that outcome is.
    let mut deck = Vec::new();
    for id in 0..52u8 {
        deck.push(id);
    }
    let piles = deal_klondike(&deck);
    let flag = AtomicBool::new(false);
    let outcome = solve(GameKind::Klondike, &piles, &flag);
    match outcome {
        SolveOutcome::Solved(h) => assert!(h.len() >= 1),
        SolveOutcome::NoMoves => {},
        SolveOutcome::OutOfBudget => {},
        SolveOutcome::Cancelled => panic!("nothing set the cancellation flag"),
    }
}

#[test]
fn priority_counts_foundation_cards() {
    let mut piles = empty_klondike();
    piles[7] = vec![encode(0, 0, false), encode(0, 1, false)];
    piles[9] = vec![encode(1, 0, false)];
    assert_eq!(solitaire::games::game_priority(GameKind::Klondike, &piles), 3);
    assert_eq!(
        solitaire::games::game_priority(GameKind::OneFoundation { play_piles: 1 }, &vec![
            vec![encode(0, 0, false)],
            vec![encode(1, 0, false), encode(1, 1, false)],
        ]),
        2,
    );
}

#[test]
fn safe_automoves_follow_the_opposite_colour_rule() {
    let mut piles = empty_klondike();
    // Aces and twos are always safe.
    assert!(klondike_safe_automove(&piles, encode(1, 0, false)));
    assert!(klondike_safe_automove(&piles, encode(1, 1, false)));
    // A red 3 is unsafe until both black suits reach rank 3 on their
    // foundations.
    let red_3 = encode(1, 2, false);
    assert!(!klondike_safe_automove(&piles, red_3));
    piles[7] = vec![encode(0, 0, false), encode(0, 1, false), encode(0, 2, false)];
    assert!(!klondike_safe_automove(&piles, red_3));
    piles[8] = vec![encode(2, 0, false), encode(2, 1, false), encode(2, 2, false)];
    assert!(klondike_safe_automove(&piles, red_3));
}
