//! The Klondike game: its move generator (foundation moves with safe
//! automoves, stock reveals, tableau runs, waste recycling) and its
//! dealer.

use vstd::prelude::*;
use crate::card::{
    flipped, face_down, rank_of, suit_of, black_suit, card_id, is_flipped, is_same_suit,
    is_similar_suit, is_one_rank_above, solver_card_to_id,
};
use crate::solver::{Move, MoveInstruction, create_move, piles_view, distinct_card_ids};
use crate::games::{
    GameKind, game_piles_ok, KLONDIKE_TABLEAU_COUNT, KLONDIKE_FOUNDATION_START, KLONDIKE_WASTE,
    KLONDIKE_STOCK, KLONDIKE_PILE_COUNT,
};
use crate::search::State;

verus! {

/// The highest rank that suit `s` has reached on a foundation, counted
/// as cards (ace = 1, king = 13), over the foundations from `f` up; 0
/// when no foundation is topped by that suit.
pub open spec fn suit_foundation_count(piles: Seq<Seq<u8>>, s: u8, f: int) -> int
    decreases KLONDIKE_WASTE - f,
{
    if f >= KLONDIKE_WASTE {
        0
    } else {
        let rest = suit_foundation_count(piles, s, f + 1);
        if piles[f].len() > 0 && suit_of(piles[f].last()) == s {
            let r = rank_of(piles[f].last()) + 1;
            if r > rest {
                r as int
            } else {
                rest
            }
        } else {
            rest
        }
    }
}

/// Whether sending the card to its foundation is provably never harmful
/// to winnability: its rank is below 2, or both opposite-colour suits
/// have already reached at least its rank on their foundations.
pub open spec fn klondike_safe_spec(piles: Seq<Seq<u8>>, c: u8) -> bool {
    ||| rank_of(c) < 2
    ||| {
        let o1: u8 = if black_suit(suit_of(c)) {
            1
        } else {
            0
        };
        let o2: u8 = if black_suit(suit_of(c)) {
            3
        } else {
            2
        };
        let m1 = suit_foundation_count(piles, o1, KLONDIKE_FOUNDATION_START as int);
        let m2 = suit_foundation_count(piles, o2, KLONDIKE_FOUNDATION_START as int);
        rank_of(c) + 1 <= m1 && rank_of(c) + 1 <= m2
    }
}

/// Computes how many cards of suit `s` a foundation has resolved.
fn suit_foundation_count_exec(piles: &Vec<Vec<u8>>, s: u8) -> (r: u8)
    requires
        piles@.len() == KLONDIKE_PILE_COUNT,
    ensures
        r as int == suit_foundation_count(
            piles_view(*piles),
            s,
            KLONDIKE_FOUNDATION_START as int,
        ),
{
    let ghost gv = piles_view(*piles);
    let mut f: usize = KLONDIKE_WASTE;
    let mut acc: u8 = 0;
    while f > KLONDIKE_FOUNDATION_START
        invariant
            KLONDIKE_FOUNDATION_START <= f <= KLONDIKE_WASTE,
            gv == piles_view(*piles),
            gv.len() == KLONDIKE_PILE_COUNT,
            acc as int == suit_foundation_count(gv, s, f as int),
            acc <= 13,
        decreases f,
    {
        f = f - 1;
        proof {
            assert(gv[f as int] == piles@[f as int]@);
        }
        let pile = &piles[f];
        if pile.len() > 0 {
            let top = pile[pile.len() - 1];
            if solver_card_to_id(&top) / 13 == s {
                let r = solver_card_to_id(&top) % 13 + 1;
                if r > acc {
                    acc = r;
                }
            }
        }
    }
    acc
}

/// Decides whether sending the card to its foundation is a safe automove.
pub fn klondike_safe_automove(piles: &Vec<Vec<u8>>, c: u8) -> (r: bool)
    requires
        piles@.len() == KLONDIKE_PILE_COUNT,
    ensures
        r == klondike_safe_spec(piles_view(*piles), c),
{
    let rank = solver_card_to_id(&c) % 13;
    if rank < 2 {
        return true;
    }
    let black = {
        let s = solver_card_to_id(&c) / 13;
        s == 0 || s == 2
    };
    let o1: u8 = if black {
        1
    } else {
        0
    };
    let o2: u8 = if black {
        3
    } else {
        2
    };
    let m1 = suit_foundation_count_exec(piles, o1);
    let m2 = suit_foundation_count_exec(piles, o2);
    rank + 1 <= m1 && rank + 1 <= m2
}


/// A foundation source: a tableau column or the waste, non-empty, with
/// its top card face up.
pub open spec fn klondike_foundation_source(piles: Seq<Seq<u8>>, i: int) -> bool {
    &&& (0 <= i < KLONDIKE_TABLEAU_COUNT || i == KLONDIKE_WASTE)
    &&& piles[i].len() > 0
    &&& !face_down(piles[i].last())
}

/// A foundation candidate: source `i`'s top card continues foundation
/// `j` (or is an ace when that foundation is empty).
pub open spec fn klondike_foundation_candidate(piles: Seq<Seq<u8>>, i: int, j: int) -> bool {
    &&& klondike_foundation_source(piles, i)
    &&& KLONDIKE_FOUNDATION_START <= j < KLONDIKE_FOUNDATION_START + 4
    &&& (if piles[j].len() == 0 {
        rank_of(piles[i].last()) == 0
    } else {
        suit_of(piles[j].last()) == suit_of(piles[i].last()) && rank_of(piles[j].last()) + 1
            == rank_of(piles[i].last())
    })
}

/// The move a foundation candidate files.
pub open spec fn klondike_foundation_move_spec(piles: Seq<Seq<u8>>, i: int, j: int) -> Move {
    Move {
        origin_stack: i as usize,
        card: piles[i].last(),
        destination_stack: j as usize,
        instruction: MoveInstruction::Plain,
        flip_index: None,
    }
}

/// A safe automove: a foundation candidate whose card is provably never
/// harmful to send up. Generation commits one and stops.
pub open spec fn klondike_foundation_automove(piles: Seq<Seq<u8>>, i: int, j: int) -> bool {
    klondike_foundation_candidate(piles, i, j) && klondike_safe_spec(piles, piles[i].last())
}

/// A tableau candidate: the face-up card at position `p` of column `i`
/// leads a run that either exposes a hidden card when it leaves, moving
/// onto a fitting face-up top of column `j`, or is a buried king's run
/// relocating to an empty column.
pub open spec fn klondike_tableau_candidate(piles: Seq<Seq<u8>>, i: int, p: int, j: int) -> bool {
    &&& 0 <= i < KLONDIKE_TABLEAU_COUNT
    &&& 0 <= j < KLONDIKE_TABLEAU_COUNT
    &&& j != i
    &&& 0 <= p < piles[i].len()
    &&& !face_down(piles[i][p])
    &&& (if piles[j].len() == 0 {
        rank_of(piles[i][p]) == 12 && p > 0
    } else {
        &&& p > 0 && face_down(piles[i][p - 1])
        &&& !face_down(piles[j].last())
        &&& black_suit(suit_of(piles[i][p])) != black_suit(suit_of(piles[j].last()))
        &&& rank_of(piles[j].last()) == rank_of(piles[i][p]) + 1
    })
}

/// The move a tableau candidate files.
pub open spec fn klondike_tableau_move_spec(piles: Seq<Seq<u8>>, i: int, p: int, j: int) -> Move {
    Move {
        origin_stack: i as usize,
        card: piles[i][p],
        destination_stack: j as usize,
        instruction: MoveInstruction::Plain,
        flip_index: None,
    }
}

/// The stock-to-waste reveal, proposed whenever the stock holds a card.
pub open spec fn klondike_stock_candidate(piles: Seq<Seq<u8>>) -> bool {
    piles[KLONDIKE_STOCK as int].len() > 0
}

/// The move the stock reveal files.
pub open spec fn klondike_stock_move_spec(piles: Seq<Seq<u8>>) -> Move {
    Move {
        origin_stack: KLONDIKE_STOCK,
        card: piles[KLONDIKE_STOCK as int].last(),
        destination_stack: KLONDIKE_WASTE,
        instruction: MoveInstruction::Flip,
        flip_index: None,
    }
}

/// Waste recycling, proposed once the stock is empty and the waste is not.
pub open spec fn klondike_recycle_candidate(piles: Seq<Seq<u8>>) -> bool {
    piles[KLONDIKE_STOCK as int].len() == 0 && piles[KLONDIKE_WASTE as int].len() > 0
}

/// The move waste recycling files.
pub open spec fn klondike_recycle_move_spec(piles: Seq<Seq<u8>>) -> Move {
    Move {
        origin_stack: KLONDIKE_WASTE,
        card: piles[KLONDIKE_WASTE as int][0],
        destination_stack: KLONDIKE_STOCK,
        instruction: MoveInstruction::Flip,
        flip_index: None,
    }
}

/// The candidate moves the Klondike generator proposes on a layout.
pub open spec fn klondike_candidate_move(piles: Seq<Seq<u8>>, m: Move) -> bool {
    ||| exists|i: int, j: int|
        #[trigger] klondike_foundation_candidate(piles, i, j) && m == klondike_foundation_move_spec(
            piles,
            i,
            j,
        )
    ||| exists|i: int, p: int, j: int|
        #[trigger] klondike_tableau_candidate(piles, i, p, j) && m == klondike_tableau_move_spec(
            piles,
            i,
            p,
            j,
        )
    ||| klondike_stock_candidate(piles) && m == klondike_stock_move_spec(piles)
    ||| klondike_recycle_candidate(piles) && m == klondike_recycle_move_spec(piles)
}

/// The safe automoves among the Klondike candidates.
pub open spec fn klondike_automove_move(piles: Seq<Seq<u8>>, m: Move) -> bool {
    exists|i: int, j: int|
        #[trigger] klondike_foundation_automove(piles, i, j) && m == klondike_foundation_move_spec(
            piles,
            i,
            j,
        )
}

/// The scan position of a foundation source: tableau columns first,
/// then the waste.
pub open spec fn klondike_source_pos(i: int) -> int {
    if i == KLONDIKE_WASTE {
        KLONDIKE_TABLEAU_COUNT as int
    } else {
        i
    }
}

/// Scans the foundation sources for a safe automove.
fn klondike_find_automove(state: &State) -> (r: Option<(usize, usize)>)
    requires
        state.wf(),
        state.game is Klondike,
    ensures
        (match r {
            Some(pair) => klondike_foundation_automove(
                state.piles(),
                pair.0 as int,
                pair.1 as int,
            ),
            None => forall|i: int, j: int| !klondike_foundation_automove(state.piles(), i, j),
        }),
{
    proof {
        state.lemma_state_current();
    }
    let ghost piles0 = state.piles();
    for si in 0..8usize
        invariant
            state.wf(),
            state.game is Klondike,
            piles0 == state.piles(),
            state.piles().len() == KLONDIKE_PILE_COUNT,
            forall|i0: int, j0: int|
                klondike_source_pos(i0) < si ==> !klondike_foundation_automove(piles0, i0, j0),
    {
        let i = if si < KLONDIKE_TABLEAU_COUNT {
            si
        } else {
            KLONDIKE_WASTE
        };
        let pile_len = state.get_stack(i).len();
        let mut source_ok = false;
        if pile_len > 0 {
            let c = state.get_stack(i)[pile_len - 1];
            if !is_flipped(&c) {
                source_ok = true;
                if klondike_safe_automove(&state.game_state, c) {
                    for j in KLONDIKE_FOUNDATION_START..KLONDIKE_FOUNDATION_START + 4
                        invariant
                            state.wf(),
                            state.game is Klondike,
                            piles0 == state.piles(),
                            state.piles().len() == KLONDIKE_PILE_COUNT,
                            i < KLONDIKE_PILE_COUNT,
                            pile_len == piles0[i as int].len(),
                            pile_len > 0,
                            c == piles0[i as int].last(),
                            klondike_foundation_source(piles0, i as int),
                            klondike_safe_spec(piles0, c),
                            forall|i0: int, j0: int|
                                klondike_source_pos(i0) < si ==> !klondike_foundation_automove(
                                    piles0,
                                    i0,
                                    j0,
                                ),
                            forall|j0: int|
                                KLONDIKE_FOUNDATION_START <= j0 < j
                                    ==> !klondike_foundation_automove(piles0, i as int, j0),
                    {
                        let foundation_len = state.get_stack(j).len();
                        let fits = if foundation_len == 0 {
                            solver_card_to_id(&c) % 13 == 0
                        } else {
                            let t = state.get_stack(j)[foundation_len - 1];
                            is_same_suit(&t, &c) && is_one_rank_above(&t, &c)
                        };
                        if fits {
                            return Some((i, j));
                        }
                        proof {
                            assert(!klondike_foundation_candidate(piles0, i as int, j as int));
                        }
                    }
                }
            }
        }
        proof {
            assert forall|j0: int| !klondike_foundation_automove(piles0, i as int, j0) by {
                if !source_ok {
                    assert(!klondike_foundation_source(piles0, i as int));
                }
            }
            assert forall|i0: int, j0: int|
                klondike_source_pos(i0) < si + 1 implies !klondike_foundation_automove(
                piles0,
                i0,
                j0,
            ) by {
                if klondike_source_pos(i0) == si as int && klondike_foundation_automove(
                    piles0,
                    i0,
                    j0,
                ) {
                    assert(i0 == i as int);
                }
            }
        }
    }
    proof {
        assert forall|i0: int, j0: int|
            !klondike_foundation_automove(piles0, i0, j0) by {
            if klondike_foundation_automove(piles0, i0, j0) {
                assert(klondike_source_pos(i0) < 8);
            }
        }
    }
    None
}

/// Files every foundation candidate: each tableau-top or waste-top card
/// that continues a foundation (or starts one with an ace).
fn propose_foundation_moves(state: &mut State)
    requires
        old(state).wf(),
        old(state).game is Klondike,
    ensures
        final(state).wf(),
        final(state).game == old(state).game,
        final(state).initial == old(state).initial,
        final(state).q_index == old(state).q_index,
        final(state).parent_node == old(state).parent_node,
        final(state).piles() == old(state).piles(),
        crate::search::elems_extended(old(state).elems(), final(state).elems()),
        forall|k: int| old(state).queued(k) ==> final(state).queued(k),
        forall|k: int|
            old(state).nodes@.len() <= k < final(state).nodes@.len() ==> final(state).queued(k),
        forall|k: int|
            #![trigger final(state).elems()[k]]
            old(state).elems().len() <= k < final(state).elems().len()
                ==> crate::games::some_candidate_expansion(
                old(state).game,
                old(state).piles(),
                final(state).elems()[k],
            ),
        forall|i: int, j: int|
            klondike_foundation_candidate(old(state).piles(), i, j) ==> crate::games::expansion_stored(
                old(state).game,
                old(state).piles(),
                klondike_foundation_move_spec(old(state).piles(), i, j),
                final(state).elems(),
            ),
{
    proof {
        state.lemma_state_current();
    }
    let ghost game0 = state.game;
    let ghost piles0 = state.piles();
    for si in 0..8usize
        invariant
            state.wf(),
            state.game == old(state).game,
            state.initial == old(state).initial,
            state.q_index == old(state).q_index,
            state.parent_node == old(state).parent_node,
            state.piles() == old(state).piles(),
            state.game is Klondike,
            game0 == state.game,
            piles0 == state.piles(),
            state.piles().len() == KLONDIKE_PILE_COUNT,
            crate::search::elems_extended(old(state).elems(), state.elems()),
            forall|k: int| old(state).queued(k) ==> state.queued(k),
            forall|k: int|
                old(state).nodes@.len() <= k < state.nodes@.len() ==> state.queued(k),
            forall|k: int|
                #![trigger state.elems()[k]]
                old(state).elems().len() <= k < state.elems().len()
                    ==> crate::games::some_candidate_expansion(game0, piles0, state.elems()[k]),
            forall|i0: int, j0: int|
                klondike_foundation_candidate(piles0, i0, j0) && klondike_source_pos(i0) < si
                    ==> crate::games::expansion_stored(
                    game0,
                    piles0,
                    klondike_foundation_move_spec(piles0, i0, j0),
                    state.elems(),
                ),
    {
        let i = if si < KLONDIKE_TABLEAU_COUNT {
            si
        } else {
            KLONDIKE_WASTE
        };
        let ghost elems_outer = state.elems();
        let pile_len = state.get_stack(i).len();
        let mut source_ok = false;
        if pile_len > 0 {
            let c = state.get_stack(i)[pile_len - 1];
            if !is_flipped(&c) {
                source_ok = true;
                for j in KLONDIKE_FOUNDATION_START..KLONDIKE_FOUNDATION_START + 4
                    invariant
                        state.wf(),
                        state.game == old(state).game,
                        state.initial == old(state).initial,
                        state.q_index == old(state).q_index,
                        state.parent_node == old(state).parent_node,
                        state.piles() == old(state).piles(),
                        state.game is Klondike,
                        game0 == state.game,
                        piles0 == state.piles(),
                        state.piles().len() == KLONDIKE_PILE_COUNT,
                        i < KLONDIKE_PILE_COUNT,
                        si < 8,
                        i as int == (if si < KLONDIKE_TABLEAU_COUNT {
                            si as int
                        } else {
                            KLONDIKE_WASTE as int
                        }),
                        pile_len == piles0[i as int].len(),
                        pile_len > 0,
                        c == piles0[i as int].last(),
                        klondike_foundation_source(piles0, i as int),
                        crate::search::elems_extended(old(state).elems(), state.elems()),
                        crate::search::elems_extended(elems_outer, state.elems()),
                        forall|k: int| old(state).queued(k) ==> state.queued(k),
                        forall|k: int|
                            old(state).nodes@.len() <= k < state.nodes@.len() ==> state.queued(
                                k,
                            ),
                        forall|k: int|
                            #![trigger state.elems()[k]]
                            old(state).elems().len() <= k < state.elems().len()
                                ==> crate::games::some_candidate_expansion(
                                game0,
                                piles0,
                                state.elems()[k],
                            ),
                        forall|i0: int, j0: int|
                            klondike_foundation_candidate(piles0, i0, j0) && klondike_source_pos(
                                i0,
                            ) < si ==> crate::games::expansion_stored(
                                game0,
                                piles0,
                                klondike_foundation_move_spec(piles0, i0, j0),
                                state.elems(),
                            ),
                        forall|j0: int|
                            klondike_foundation_candidate(piles0, i as int, j0) && j0 < j
                                ==> crate::games::expansion_stored(
                                game0,
                                piles0,
                                klondike_foundation_move_spec(piles0, i as int, j0),
                                state.elems(),
                            ),
                {
                    let ghost elems_inner = state.elems();
                    let foundation_len = state.get_stack(j).len();
                    let fits = if foundation_len == 0 {
                        solver_card_to_id(&c) % 13 == 0
                    } else {
                        let t = state.get_stack(j)[foundation_len - 1];
                        is_same_suit(&t, &c) && is_one_rank_above(&t, &c)
                    };
                    let ghost cand_m = klondike_foundation_move_spec(piles0, i as int, j as int);
                    if fits {
                        let mv = create_move(i, &c, j, MoveInstruction::Plain);
                        proof {
                            assert(piles0[i as int].contains(c)) by {
                                assert(piles0[i as int][pile_len - 1] == c);
                            }
                            assert(klondike_foundation_candidate(piles0, i as int, j as int));
                            assert(mv == cand_m);
                        }
                        state.file_candidate(mv, 3);
                        proof {
                            assert(crate::games::is_candidate_move(game0, piles0, cand_m));
                        }
                    } else {
                        proof {
                            assert(!klondike_foundation_candidate(piles0, i as int, j as int));
                        }
                    }
                    proof {
                        assert forall|k: int| #![trigger state.elems()[k]]
                            old(state).elems().len() <= k < state.elems().len()
                                implies crate::games::some_candidate_expansion(
                            game0,
                            piles0,
                            state.elems()[k],
                        ) by {
                            if k < elems_inner.len() {
                                assert(state.elems()[k] == elems_inner[k]);
                                assert(crate::games::some_candidate_expansion(
                                    game0,
                                    piles0,
                                    elems_inner[k],
                                ));
                            } else {
                                assert(crate::games::stored_is_expansion(
                                    game0,
                                    piles0,
                                    cand_m,
                                    state.elems()[k],
                                ));
                                assert(crate::games::is_candidate_move(game0, piles0, cand_m));
                            }
                        }
                        assert forall|j0: int|
                            klondike_foundation_candidate(piles0, i as int, j0) && j0 < j + 1
                                implies crate::games::expansion_stored(
                            game0,
                            piles0,
                            klondike_foundation_move_spec(piles0, i as int, j0),
                            state.elems(),
                        ) by {
                            if j0 < j {
                                crate::games::lemma_stored_extended(
                                    game0,
                                    piles0,
                                    klondike_foundation_move_spec(piles0, i as int, j0),
                                    elems_inner,
                                    state.elems(),
                                );
                            }
                        }
                        assert forall|i0: int, j0: int|
                            klondike_foundation_candidate(piles0, i0, j0) && klondike_source_pos(
                                i0,
                            ) < si implies crate::games::expansion_stored(
                            game0,
                            piles0,
                            klondike_foundation_move_spec(piles0, i0, j0),
                            state.elems(),
                        ) by {
                            crate::games::lemma_stored_extended(
                                game0,
                                piles0,
                                klondike_foundation_move_spec(piles0, i0, j0),
                                elems_inner,
                                state.elems(),
                            );
                        }
                    }
                }
            }
        }
        proof {
            assert forall|i0: int, j0: int|
                klondike_foundation_candidate(piles0, i0, j0) && klondike_source_pos(i0) < si + 1
                    implies crate::games::expansion_stored(
                game0,
                piles0,
                klondike_foundation_move_spec(piles0, i0, j0),
                state.elems(),
            ) by {
                if klondike_source_pos(i0) == si as int {
                    assert(i0 == i as int);
                    if !source_ok {
                        assert(!klondike_foundation_source(piles0, i0));
                    }
                } else if klondike_source_pos(i0) < si as int {
                    crate::games::lemma_stored_extended(
                        game0,
                        piles0,
                        klondike_foundation_move_spec(piles0, i0, j0),
                        elems_outer,
                        state.elems(),
                    );
                }
            }
        }
    }
}

/// Files every tableau candidate: runs that expose a hidden card, and
/// buried kings' runs relocating to an empty column.
fn propose_tableau_moves(state: &mut State)
    requires
        old(state).wf(),
        old(state).game is Klondike,
    ensures
        final(state).wf(),
        final(state).game == old(state).game,
        final(state).initial == old(state).initial,
        final(state).q_index == old(state).q_index,
        final(state).parent_node == old(state).parent_node,
        final(state).piles() == old(state).piles(),
        crate::search::elems_extended(old(state).elems(), final(state).elems()),
        forall|k: int| old(state).queued(k) ==> final(state).queued(k),
        forall|k: int|
            old(state).nodes@.len() <= k < final(state).nodes@.len() ==> final(state).queued(k),
        forall|k: int|
            #![trigger final(state).elems()[k]]
            old(state).elems().len() <= k < final(state).elems().len()
                ==> crate::games::some_candidate_expansion(
                old(state).game,
                old(state).piles(),
                final(state).elems()[k],
            ),
        forall|i: int, p: int, j: int|
            klondike_tableau_candidate(old(state).piles(), i, p, j)
                ==> crate::games::expansion_stored(
                old(state).game,
                old(state).piles(),
                klondike_tableau_move_spec(old(state).piles(), i, p, j),
                final(state).elems(),
            ),
{
    proof {
        state.lemma_state_current();
    }
    let ghost game0 = state.game;
    let ghost piles0 = state.piles();
    for i in 0..KLONDIKE_TABLEAU_COUNT
        invariant
            state.wf(),
            state.game == old(state).game,
            state.initial == old(state).initial,
            state.q_index == old(state).q_index,
            state.parent_node == old(state).parent_node,
            state.piles() == old(state).piles(),
            state.game is Klondike,
            game0 == state.game,
            piles0 == state.piles(),
            state.piles().len() == KLONDIKE_PILE_COUNT,
            crate::search::elems_extended(old(state).elems(), state.elems()),
            forall|k: int| old(state).queued(k) ==> state.queued(k),
            forall|k: int|
                old(state).nodes@.len() <= k < state.nodes@.len() ==> state.queued(k),
            forall|k: int|
                #![trigger state.elems()[k]]
                old(state).elems().len() <= k < state.elems().len()
                    ==> crate::games::some_candidate_expansion(game0, piles0, state.elems()[k]),
            forall|i0: int, p0: int, j0: int|
                klondike_tableau_candidate(piles0, i0, p0, j0) && i0 < i
                    ==> crate::games::expansion_stored(
                    game0,
                    piles0,
                    klondike_tableau_move_spec(piles0, i0, p0, j0),
                    state.elems(),
                ),
    {
        let ghost elems_i = state.elems();
        let n = state.get_stack(i).len();
        for p in 0..n
            invariant
                state.wf(),
                state.game == old(state).game,
                state.initial == old(state).initial,
                state.q_index == old(state).q_index,
                state.parent_node == old(state).parent_node,
                state.piles() == old(state).piles(),
                state.game is Klondike,
                game0 == state.game,
                piles0 == state.piles(),
                state.piles().len() == KLONDIKE_PILE_COUNT,
                i < KLONDIKE_TABLEAU_COUNT,
                n == piles0[i as int].len(),
                crate::search::elems_extended(old(state).elems(), state.elems()),
                crate::search::elems_extended(elems_i, state.elems()),
                forall|k: int| old(state).queued(k) ==> state.queued(k),
                forall|k: int|
                    old(state).nodes@.len() <= k < state.nodes@.len() ==> state.queued(k),
                forall|k: int|
                    #![trigger state.elems()[k]]
                    old(state).elems().len() <= k < state.elems().len()
                        ==> crate::games::some_candidate_expansion(
                        game0,
                        piles0,
                        state.elems()[k],
                    ),
                forall|i0: int, p0: int, j0: int|
                    klondike_tableau_candidate(piles0, i0, p0, j0) && (i0 < i || (i0 == i && p0
                        < p)) ==> crate::games::expansion_stored(
                        game0,
                        piles0,
                        klondike_tableau_move_spec(piles0, i0, p0, j0),
                        state.elems(),
                    ),
        {
            let ghost elems_p = state.elems();
            let c = state.get_stack(i)[p];
            let mut scanned = false;
            if !is_flipped(&c) {
                let exposes = p > 0 && is_flipped(&state.get_stack(i)[p - 1]);
                let king = solver_card_to_id(&c) % 13 == 12 && p > 0;
                if exposes || king {
                    scanned = true;
                    for j in 0..KLONDIKE_TABLEAU_COUNT
                        invariant
                            state.wf(),
                            state.game == old(state).game,
                            state.initial == old(state).initial,
                            state.q_index == old(state).q_index,
                            state.parent_node == old(state).parent_node,
                            state.piles() == old(state).piles(),
                            state.game is Klondike,
                            game0 == state.game,
                            piles0 == state.piles(),
                            state.piles().len() == KLONDIKE_PILE_COUNT,
                            i < KLONDIKE_TABLEAU_COUNT,
                            n == piles0[i as int].len(),
                            p < n,
                            c == piles0[i as int][p as int],
                            !face_down(c),
                            exposes == (p > 0 && face_down(piles0[i as int][p as int - 1])),
                            king == (rank_of(c) == 12 && p > 0),
                            crate::search::elems_extended(old(state).elems(), state.elems()),
                            crate::search::elems_extended(elems_i, state.elems()),
                            crate::search::elems_extended(elems_p, state.elems()),
                            forall|k: int| old(state).queued(k) ==> state.queued(k),
                            forall|k: int|
                                old(state).nodes@.len() <= k < state.nodes@.len()
                                    ==> state.queued(k),
                            forall|k: int|
                                #![trigger state.elems()[k]]
                                old(state).elems().len() <= k < state.elems().len()
                                    ==> crate::games::some_candidate_expansion(
                                    game0,
                                    piles0,
                                    state.elems()[k],
                                ),
                            forall|i0: int, p0: int, j0: int|
                                klondike_tableau_candidate(piles0, i0, p0, j0) && (i0 < i || (i0
                                    == i && p0 < p)) ==> crate::games::expansion_stored(
                                    game0,
                                    piles0,
                                    klondike_tableau_move_spec(piles0, i0, p0, j0),
                                    state.elems(),
                                ),
                            forall|j0: int|
                                klondike_tableau_candidate(piles0, i as int, p as int, j0) && j0
                                    < j ==> crate::games::expansion_stored(
                                    game0,
                                    piles0,
                                    klondike_tableau_move_spec(piles0, i as int, p as int, j0),
                                    state.elems(),
                                ),
                    {
                        let ghost elems_j = state.elems();
                        let ghost cand_m = klondike_tableau_move_spec(
                            piles0,
                            i as int,
                            p as int,
                            j as int,
                        );
                        let mut fits = false;
                        if j != i {
                            let jlen = state.get_stack(j).len();
                            if jlen == 0 {
                                fits = king;
                            } else if exposes {
                                let t = state.get_stack(j)[jlen - 1];
                                fits = !is_flipped(&t) && !is_similar_suit(&c, &t)
                                    && is_one_rank_above(&c, &t);
                            }
                        }
                        if fits {
                            let mv = create_move(i, &c, j, MoveInstruction::Plain);
                            proof {
                                assert(piles0[i as int].contains(c)) by {
                                    assert(piles0[i as int][p as int] == c);
                                }
                                assert(klondike_tableau_candidate(
                                    piles0,
                                    i as int,
                                    p as int,
                                    j as int,
                                ));
                                assert(mv == cand_m);
                            }
                            state.file_candidate(mv, 4);
                            proof {
                                assert(crate::games::is_candidate_move(game0, piles0, cand_m));
                            }
                        } else {
                            proof {
                                assert(!klondike_tableau_candidate(
                                    piles0,
                                    i as int,
                                    p as int,
                                    j as int,
                                ));
                            }
                        }
                        proof {
                            assert forall|k: int| #![trigger state.elems()[k]]
                                old(state).elems().len() <= k < state.elems().len()
                                    implies crate::games::some_candidate_expansion(
                                game0,
                                piles0,
                                state.elems()[k],
                            ) by {
                                if k < elems_j.len() {
                                    assert(state.elems()[k] == elems_j[k]);
                                    assert(crate::games::some_candidate_expansion(
                                        game0,
                                        piles0,
                                        elems_j[k],
                                    ));
                                } else {
                                    assert(crate::games::stored_is_expansion(
                                        game0,
                                        piles0,
                                        cand_m,
                                        state.elems()[k],
                                    ));
                                    assert(crate::games::is_candidate_move(
                                        game0,
                                        piles0,
                                        cand_m,
                                    ));
                                }
                            }
                            assert forall|j0: int|
                                klondike_tableau_candidate(piles0, i as int, p as int, j0) && j0
                                    < j + 1 implies crate::games::expansion_stored(
                                game0,
                                piles0,
                                klondike_tableau_move_spec(piles0, i as int, p as int, j0),
                                state.elems(),
                            ) by {
                                if j0 < j {
                                    crate::games::lemma_stored_extended(
                                        game0,
                                        piles0,
                                        klondike_tableau_move_spec(
                                            piles0,
                                            i as int,
                                            p as int,
                                            j0,
                                        ),
                                        elems_j,
                                        state.elems(),
                                    );
                                }
                            }
                            assert forall|i0: int, p0: int, j0: int|
                                klondike_tableau_candidate(piles0, i0, p0, j0) && (i0 < i || (i0
                                    == i && p0 < p)) implies crate::games::expansion_stored(
                                game0,
                                piles0,
                                klondike_tableau_move_spec(piles0, i0, p0, j0),
                                state.elems(),
                            ) by {
                                crate::games::lemma_stored_extended(
                                    game0,
                                    piles0,
                                    klondike_tableau_move_spec(piles0, i0, p0, j0),
                                    elems_j,
                                    state.elems(),
                                );
                            }
                        }
                    }
                }
            }
            proof {
                assert forall|i0: int, p0: int, j0: int|
                    klondike_tableau_candidate(piles0, i0, p0, j0) && (i0 < i || (i0 == i && p0
                        < p + 1)) implies crate::games::expansion_stored(
                    game0,
                    piles0,
                    klondike_tableau_move_spec(piles0, i0, p0, j0),
                    state.elems(),
                ) by {
                    if i0 == i && p0 == p {
                        if !scanned {
                            assert(!klondike_tableau_candidate(piles0, i0, p0, j0));
                        }
                    } else {
                        crate::games::lemma_stored_extended(
                            game0,
                            piles0,
                            klondike_tableau_move_spec(piles0, i0, p0, j0),
                            elems_p,
                            state.elems(),
                        );
                    }
                }
            }
        }
        proof {
            assert forall|i0: int, p0: int, j0: int|
                klondike_tableau_candidate(piles0, i0, p0, j0) && i0 < i + 1
                    implies crate::games::expansion_stored(
                game0,
                piles0,
                klondike_tableau_move_spec(piles0, i0, p0, j0),
                state.elems(),
            ) by {
                if i0 < i {
                    crate::games::lemma_stored_extended(
                        game0,
                        piles0,
                        klondike_tableau_move_spec(piles0, i0, p0, j0),
                        elems_i,
                        state.elems(),
                    );
                }
            }
        }
    }
}

/// The Klondike move generator. A first pass scans for a safe automove
/// (a foundation transfer that provably never harms winnability) and,
/// when one exists, commits it and stops: its expansion is the only
/// addition. Otherwise every candidate is filed — foundation moves,
/// the stock-to-waste reveal, tableau runs that expose a hidden card or
/// relocate a buried king to an empty column, and waste recycling once
/// the stock is empty — so each candidate's expansion ends up among the
/// stored states; nothing but candidate expansions is ever added.
pub fn klondike_generate(state: &mut State)
    requires
        old(state).wf(),
        old(state).game is Klondike,
    ensures
        final(state).wf(),
        final(state).game == old(state).game,
        final(state).initial == old(state).initial,
        final(state).q_index == old(state).q_index,
        final(state).parent_node == old(state).parent_node,
        final(state).piles() == old(state).piles(),
        crate::search::elems_extended(old(state).elems(), final(state).elems()),
        forall|k: int| old(state).queued(k) ==> final(state).queued(k),
        forall|k: int|
            old(state).nodes@.len() <= k < final(state).nodes@.len() ==> final(state).queued(k),
        forall|k: int|
            #![trigger final(state).elems()[k]]
            old(state).elems().len() <= k < final(state).elems().len()
                ==> crate::games::some_candidate_expansion(
                old(state).game,
                old(state).piles(),
                final(state).elems()[k],
            ),
        !crate::games::has_automove(old(state).game, old(state).piles()) ==> forall|m: Move|
            crate::games::is_candidate_move(old(state).game, old(state).piles(), m)
                ==> crate::games::expansion_stored(
                old(state).game,
                old(state).piles(),
                m,
                final(state).elems(),
            ),
        crate::games::has_automove(old(state).game, old(state).piles())
            ==> final(state).elems().len() <= old(state).elems().len() + 1
            && crate::games::automove_expansion_stored(
            old(state).game,
            old(state).piles(),
            final(state).elems(),
        ),
        crate::games::has_automove(old(state).game, old(state).piles()) ==> forall|k: int|
            #![trigger final(state).elems()[k]]
            old(state).elems().len() <= k < final(state).elems().len()
                ==> crate::games::some_automove_expansion(
                old(state).game,
                old(state).piles(),
                final(state).elems()[k],
            ),
{
    proof {
        state.lemma_state_current();
    }
    let ghost game0 = state.game;
    let ghost piles0 = state.piles();
    if let Some(pair) = klondike_find_automove(state) {
        let (i, j) = pair;
        let pile_len = state.get_stack(i).len();
        let c = state.get_stack(i)[pile_len - 1];
        let mv = create_move(i, &c, j, MoveInstruction::Plain);
        let ghost am = klondike_foundation_move_spec(piles0, i as int, j as int);
        let ghost elems_before = state.elems();
        proof {
            assert(piles0[i as int].contains(c)) by {
                assert(piles0[i as int][pile_len - 1] == c);
            }
            assert(mv == am);
        }
        state.file_candidate(mv, 100);
        proof {
            assert(crate::games::is_automove_move(game0, piles0, am));
            assert(crate::games::is_candidate_move(game0, piles0, am));
            assert(crate::games::has_automove(game0, piles0));
            assert(crate::games::automove_expansion_stored(game0, piles0, state.elems()));
            assert forall|k: int| #![trigger state.elems()[k]]
                elems_before.len() <= k < state.elems().len()
                    implies crate::games::some_candidate_expansion(game0, piles0, state.elems()[k])
                && crate::games::some_automove_expansion(game0, piles0, state.elems()[k]) by {
                assert(crate::games::stored_is_expansion(game0, piles0, am, state.elems()[k]));
            }
        }
        return ;
    }
    proof {
        assert(!crate::games::has_automove(game0, piles0)) by {
            if crate::games::has_automove(game0, piles0) {
                let m = choose|m: Move| crate::games::is_automove_move(game0, piles0, m);
                let (i, j): (int, int) = choose|i: int, j: int|
                    klondike_foundation_automove(piles0, i, j) && m
                        == klondike_foundation_move_spec(piles0, i, j);
                assert(false);
            }
        }
    }
    propose_foundation_moves(state);
    let ghost elems_f = state.elems();
    let stock_len = state.get_stack(KLONDIKE_STOCK).len();
    if stock_len > 0 {
        let c = state.get_stack(KLONDIKE_STOCK)[stock_len - 1];
        let mv = create_move(KLONDIKE_STOCK, &c, KLONDIKE_WASTE, MoveInstruction::Flip);
        proof {
            assert(piles0[KLONDIKE_STOCK as int].contains(c)) by {
                assert(piles0[KLONDIKE_STOCK as int][stock_len - 1] == c);
            }
            assert(mv == klondike_stock_move_spec(piles0));
            assert(crate::games::is_candidate_move(game0, piles0, mv));
        }
        state.file_candidate(mv, 1);
        proof {
            lift_additions(game0, piles0, old(state).elems(), elems_f, state.elems());
        }
    }
    let ghost elems_s = state.elems();
    propose_tableau_moves(state);
    let ghost elems_t = state.elems();
    let stock_len = state.get_stack(KLONDIKE_STOCK).len();
    let waste_len = state.get_stack(KLONDIKE_WASTE).len();
    if stock_len == 0 && waste_len > 0 {
        let bottom = state.get_stack(KLONDIKE_WASTE)[0];
        let mv = create_move(KLONDIKE_WASTE, &bottom, KLONDIKE_STOCK, MoveInstruction::Flip);
        proof {
            assert(piles0[KLONDIKE_WASTE as int].contains(bottom)) by {
                assert(piles0[KLONDIKE_WASTE as int][0] == bottom);
            }
            assert(mv == klondike_recycle_move_spec(piles0));
            assert(crate::games::is_candidate_move(game0, piles0, mv));
        }
        state.file_candidate(mv, 1);
        proof {
            lift_additions(game0, piles0, old(state).elems(), elems_t, state.elems());
        }
    }
    proof {
        lift_additions(game0, piles0, old(state).elems(), elems_t, state.elems());
        assert forall|m: Move|
            crate::games::is_candidate_move(game0, piles0, m)
                implies crate::games::expansion_stored(game0, piles0, m, state.elems()) by {
            if exists|i: int, j: int|
                #[trigger] klondike_foundation_candidate(piles0, i, j) && m
                    == klondike_foundation_move_spec(piles0, i, j) {
                let (i, j): (int, int) = choose|i: int, j: int|
                    #[trigger] klondike_foundation_candidate(piles0, i, j) && m
                        == klondike_foundation_move_spec(piles0, i, j);
                crate::games::lemma_stored_extended(game0, piles0, m, elems_f, state.elems());
            } else if exists|i: int, p: int, j: int|
                #[trigger] klondike_tableau_candidate(piles0, i, p, j) && m
                    == klondike_tableau_move_spec(piles0, i, p, j) {
                let (i, p, j): (int, int, int) = choose|i: int, p: int, j: int|
                    #[trigger] klondike_tableau_candidate(piles0, i, p, j) && m
                        == klondike_tableau_move_spec(piles0, i, p, j);
                crate::games::lemma_stored_extended(game0, piles0, m, elems_t, state.elems());
            } else if klondike_stock_candidate(piles0) && m == klondike_stock_move_spec(piles0) {
                assert(crate::games::expansion_stored(game0, piles0, m, elems_s));
                crate::games::lemma_stored_extended(game0, piles0, m, elems_s, state.elems());
            } else {
                assert(klondike_recycle_candidate(piles0) && m == klondike_recycle_move_spec(
                    piles0,
                ));
                assert(crate::games::expansion_stored(game0, piles0, m, state.elems()));
            }
        }
    }
}

/// Additions across two stages of generation are still candidate
/// expansions.
proof fn lift_additions(
    game: GameKind,
    piles: Seq<Seq<u8>>,
    elems0: Seq<Seq<Seq<u8>>>,
    mid: Seq<Seq<Seq<u8>>>,
    post: Seq<Seq<Seq<u8>>>,
)
    requires
        crate::search::elems_extended(elems0, mid),
        crate::search::elems_extended(mid, post),
        forall|k: int|
            #![trigger mid[k]]
            elems0.len() <= k < mid.len() ==> crate::games::some_candidate_expansion(
                game,
                piles,
                mid[k],
            ),
        forall|k: int|
            #![trigger post[k]]
            mid.len() <= k < post.len() ==> crate::games::some_candidate_expansion(
                game,
                piles,
                post[k],
            ),
    ensures
        crate::search::elems_extended(elems0, post),
        forall|k: int|
            #![trigger post[k]]
            elems0.len() <= k < post.len() ==> crate::games::some_candidate_expansion(
                game,
                piles,
                post[k],
            ),
{
    assert forall|k: int| #![trigger post[k]]
        elems0.len() <= k < post.len() implies crate::games::some_candidate_expansion(
        game,
        piles,
        post[k],
    ) by {
        if k < mid.len() {
            assert(post[k] == mid[k]);
            assert(crate::games::some_candidate_expansion(game, piles, mid[k]));
        }
    }
}

/// The `p`-th triangular number: how many cards the tableau columns
/// before column `p` consume from the deck.
pub open spec fn tri(p: int) -> int {
    p * (p + 1) / 2
}

/// Each tableau column starts right after the previous one's cards.
pub proof fn lemma_tri_step(p: int)
    requires
        p >= 0,
    ensures
        tri(p + 1) == tri(p) + p + 1,
{
    assert((p + 1) * (p + 2) / 2 == p * (p + 1) / 2 + p + 1) by (nonlinear_arith)
        requires
            p >= 0,
    ;
}

/// Triangular numbers grow with the column index.
pub proof fn lemma_tri_mono(p1: int, p2: int)
    requires
        0 <= p1 <= p2,
    ensures
        tri(p1) <= tri(p2),
        tri(p1) + p1 + 1 <= tri(p2) + p2 + 1,
    decreases p2 - p1,
{
    if p1 < p2 {
        lemma_tri_step(p1);
        lemma_tri_mono(p1 + 1, p2);
    }
}

/// Where card `j` of pile `p` of a fresh Klondike deal comes from in
/// the deck: tableau column `p` takes cards `tri(p)` through
/// `tri(p) + p`, and the stock takes the remaining 24.
pub open spec fn klondike_deal_source(p: int, j: int) -> int {
    if p < KLONDIKE_TABLEAU_COUNT {
        tri(p) + j
    } else {
        28 + j
    }
}

/// Deals a Klondike layout from a 52-card deck of face-up cards: each
/// tableau column `p` takes the next `p + 1` cards, all face down but
/// the last; the foundations and the waste start empty; the stock takes
/// the remaining 24 cards face down, in deck order.
pub fn deal_klondike(deck: &Vec<u8>) -> (r: Vec<Vec<u8>>)
    requires
        deck@.len() == 52,
        forall|k: int| 0 <= k < 52 ==> !face_down(#[trigger] deck@[k]),
        forall|k1: int, k2: int|
            0 <= k1 < k2 < 52 ==> card_id(#[trigger] deck@[k1]) != card_id(#[trigger] deck@[k2]),
    ensures
        r@.len() == KLONDIKE_PILE_COUNT,
        game_piles_ok(GameKind::Klondike, piles_view(r)),
        distinct_card_ids(piles_view(r)),
        forall|p: int|
            0 <= p < KLONDIKE_TABLEAU_COUNT ==> (#[trigger] piles_view(r)[p]).len() == p + 1,
        forall|p: int, j: int|
            0 <= p < KLONDIKE_TABLEAU_COUNT && 0 <= j <= p ==> #[trigger] piles_view(r)[p][j] == (
            if j < p {
                flipped(deck@[tri(p) + j])
            } else {
                deck@[tri(p) + j]
            }),
        forall|p: int|
            KLONDIKE_FOUNDATION_START <= p <= KLONDIKE_WASTE ==> (#[trigger] piles_view(r)[p]).len()
                == 0,
        piles_view(r)[KLONDIKE_STOCK as int].len() == 24,
        forall|j: int|
            0 <= j < 24 ==> #[trigger] piles_view(r)[KLONDIKE_STOCK as int][j] == flipped(
                deck@[28 + j],
            ),
{
    let mut r: Vec<Vec<u8>> = Vec::new();
    let mut off: usize = 0;
    for p in 0..KLONDIKE_TABLEAU_COUNT
        invariant
            deck@.len() == 52,
            r@.len() == p,
            off as int == tri(p as int),
            off <= 28,
            forall|q: int| 0 <= q < p ==> (#[trigger] r@[q]@).len() == q + 1,
            forall|q: int, j: int|
                0 <= q < p && 0 <= j <= q ==> #[trigger] r@[q]@[j] == (if j < q {
                    flipped(deck@[tri(q) + j])
                } else {
                    deck@[tri(q) + j]
                }),
    {
        proof {
            lemma_tri_step(p as int);
            lemma_tri_mono(p as int + 1, KLONDIKE_TABLEAU_COUNT as int);
            assert(tri(KLONDIKE_TABLEAU_COUNT as int) == 28);
        }
        let mut pile: Vec<u8> = Vec::new();
        for j in 0..p + 1
            invariant
                deck@.len() == 52,
                off as int == tri(p as int),
                off + p + 1 <= 28,
                j <= p + 1,
                pile@.len() == j,
                forall|t: int|
                    0 <= t < j ==> #[trigger] pile@[t] == (if t < p {
                        flipped(deck@[tri(p as int) + t])
                    } else {
                        deck@[tri(p as int) + t]
                    }),
        {
            let c = deck[off + j];
            if j < p {
                pile.push(crate::card::card_flipped(&c));
            } else {
                pile.push(c);
            }
        }
        r.push(pile);
        off = off + p + 1;
        proof {
            lemma_tri_step(p as int);
        }
    }
    for p in KLONDIKE_FOUNDATION_START..KLONDIKE_WASTE + 1
        invariant
            deck@.len() == 52,
            r@.len() == p,
            forall|q: int| 0 <= q < KLONDIKE_TABLEAU_COUNT ==> (#[trigger] r@[q]@).len() == q + 1,
            forall|q: int, j: int|
                0 <= q < KLONDIKE_TABLEAU_COUNT && 0 <= j <= q ==> #[trigger] r@[q]@[j] == (if j
                    < q {
                    flipped(deck@[tri(q) + j])
                } else {
                    deck@[tri(q) + j]
                }),
            forall|q: int|
                KLONDIKE_FOUNDATION_START <= q < p ==> (#[trigger] r@[q]@).len() == 0,
    {
        r.push(Vec::new());
    }
    let mut stock: Vec<u8> = Vec::new();
    for j in 0..24usize
        invariant
            deck@.len() == 52,
            stock@.len() == j,
            forall|t: int| 0 <= t < j ==> #[trigger] stock@[t] == flipped(deck@[28 + t]),
    {
        let c = deck[28 + j];
        stock.push(crate::card::card_flipped(&c));
    }
    r.push(stock);
    proof {
        lemma_deal_distinct(deck@, piles_view(r));
    }
    r
}

/// A layout dealt from a deck of distinct cards keeps its card
/// identities distinct: every layout position takes its card from a
/// different deck position.
proof fn lemma_deal_distinct(deck: Seq<u8>, rv: Seq<Seq<u8>>)
    requires
        deck.len() == 52,
        forall|k1: int, k2: int|
            0 <= k1 < k2 < 52 ==> card_id(#[trigger] deck[k1]) != card_id(#[trigger] deck[k2]),
        rv.len() == KLONDIKE_PILE_COUNT,
        forall|p: int| 0 <= p < KLONDIKE_TABLEAU_COUNT ==> (#[trigger] rv[p]).len() == p + 1,
        forall|p: int, j: int|
            0 <= p < KLONDIKE_TABLEAU_COUNT && 0 <= j <= p ==> #[trigger] rv[p][j] == (if j < p {
                flipped(deck[tri(p) + j])
            } else {
                deck[tri(p) + j]
            }),
        forall|p: int|
            KLONDIKE_FOUNDATION_START <= p <= KLONDIKE_WASTE ==> (#[trigger] rv[p]).len() == 0,
        rv[KLONDIKE_STOCK as int].len() == 24,
        forall|j: int|
            0 <= j < 24 ==> #[trigger] rv[KLONDIKE_STOCK as int][j] == flipped(deck[28 + j]),
    ensures
        distinct_card_ids(rv),
{
    assert forall|p: int, i: int, q: int, j: int|
        0 <= p < rv.len() && 0 <= i < rv[p].len() && 0 <= q < rv.len() && 0 <= j < rv[q].len() && (
    p != q || i != j) implies card_id(rv[p][i]) != card_id(rv[q][j]) by {
        lemma_deal_source_ok(deck, rv, p, i);
        lemma_deal_source_ok(deck, rv, q, j);
        let a = klondike_deal_source(p, i);
        let b = klondike_deal_source(q, j);
        assert(a != b) by {
            if p < KLONDIKE_TABLEAU_COUNT && q < KLONDIKE_TABLEAU_COUNT {
                if p < q {
                    lemma_tri_step(p);
                    lemma_tri_mono(p + 1, q);
                } else if q < p {
                    lemma_tri_step(q);
                    lemma_tri_mono(q + 1, p);
                }
            } else if p < KLONDIKE_TABLEAU_COUNT {
                lemma_tri_step(p);
                lemma_tri_mono(p + 1, KLONDIKE_TABLEAU_COUNT as int);
                assert(tri(KLONDIKE_TABLEAU_COUNT as int) == 28);
            } else if q < KLONDIKE_TABLEAU_COUNT {
                lemma_tri_step(q);
                lemma_tri_mono(q + 1, KLONDIKE_TABLEAU_COUNT as int);
                assert(tri(KLONDIKE_TABLEAU_COUNT as int) == 28);
            }
        }
        assert(card_id(deck[a]) != card_id(deck[b]));
    }
}

/// Each dealt position takes its card, identity unchanged, from the
/// deck position `klondike_deal_source` names.
proof fn lemma_deal_source_ok(deck: Seq<u8>, rv: Seq<Seq<u8>>, p: int, j: int)
    requires
        deck.len() == 52,
        rv.len() == KLONDIKE_PILE_COUNT,
        forall|q: int| 0 <= q < KLONDIKE_TABLEAU_COUNT ==> (#[trigger] rv[q]).len() == q + 1,
        forall|q: int, t: int|
            0 <= q < KLONDIKE_TABLEAU_COUNT && 0 <= t <= q ==> #[trigger] rv[q][t] == (if t < q {
                flipped(deck[tri(q) + t])
            } else {
                deck[tri(q) + t]
            }),
        forall|q: int|
            KLONDIKE_FOUNDATION_START <= q <= KLONDIKE_WASTE ==> (#[trigger] rv[q]).len() == 0,
        rv[KLONDIKE_STOCK as int].len() == 24,
        forall|t: int|
            0 <= t < 24 ==> #[trigger] rv[KLONDIKE_STOCK as int][t] == flipped(deck[28 + t]),
        0 <= p < rv.len(),
        0 <= j < rv[p].len(),
    ensures
        0 <= klondike_deal_source(p, j) < 52,
        card_id(rv[p][j]) == card_id(deck[klondike_deal_source(p, j)]),
{
    if p < KLONDIKE_TABLEAU_COUNT {
        lemma_tri_mono(p, KLONDIKE_TABLEAU_COUNT as int - 1);
        assert(tri(6) == 21);
        crate::card::lemma_flip_involution(deck[tri(p) + j]);
    } else {
        assert(p == KLONDIKE_STOCK);
        crate::card::lemma_flip_involution(deck[28 + j]);
    }
}

} // verus!
