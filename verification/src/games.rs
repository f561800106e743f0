//! The per-game plugin contract, as a closed tagged union: each variant
//! supplies a pile layout, a move-side-effect hook, a priority
//! heuristic, a win predicate and a move generator, dispatched by match.

use vstd::prelude::*;
use crate::card::{face_down, flipped, rank_of, suit_of, card_id, card_flipped, is_flipped};
use crate::solver::{
    Move, MoveInstruction, piles_view, distinct_card_ids, state_after_move, card_after_move,
    move_applies,
};

verus! {

/// Number of priority buckets the search driver keeps: one for each
/// possible count of cards resolved to foundations (0 through 52).
pub const NUM_BUCKETS: usize = 53;

/// Klondike's pile layout: seven tableau columns, then four
/// foundations, then the waste, then the stock.
pub const KLONDIKE_TABLEAU_COUNT: usize = 7;

/// Index of Klondike's first foundation pile.
pub const KLONDIKE_FOUNDATION_START: usize = 7;

/// Index of Klondike's waste pile.
pub const KLONDIKE_WASTE: usize = 11;

/// Index of Klondike's stock pile.
pub const KLONDIKE_STOCK: usize = 12;

/// Number of piles in a Klondike layout.
pub const KLONDIKE_PILE_COUNT: usize = 13;

/// A supported game variant. The set of variants is fixed and known at
/// compile time, so dispatch is a match rather than a trait object.
#[derive(Clone, Copy, Debug, PartialEq, Eq, Structural)]
pub enum GameKind {
    /// Klondike: seven tableau columns, four foundations built upward
    /// by suit, a stock dealt to a waste pile, and recycling of the
    /// waste; won when every foundation ends on a king.
    Klondike,
    /// A minimal illustrative variant: some play piles and one
    /// foundation pile (the last pile), built upward by suit from the
    /// ace; won when every play pile is empty.
    OneFoundation { play_piles: usize },
}

/// Whether a pile layout has the shape the game expects.
pub open spec fn game_piles_ok(game: GameKind, piles: Seq<Seq<u8>>) -> bool {
    match game {
        GameKind::Klondike => piles.len() == KLONDIKE_PILE_COUNT,
        GameKind::OneFoundation { play_piles } => play_piles >= 1 && piles.len() == play_piles
            + 1,
    }
}

/// Piles below this index auto-reveal their top card when a move takes
/// cards away from them (Klondike's tableau columns; every play pile of
/// the one-foundation game).
pub open spec fn reveal_limit_spec(game: GameKind) -> int {
    match game {
        GameKind::Klondike => KLONDIKE_TABLEAU_COUNT as int,
        GameKind::OneFoundation { play_piles } => play_piles as int,
    }
}

/// The piles with the top card of pile `p` flipped over.
pub open spec fn flip_top(piles: Seq<Seq<u8>>, p: int) -> Seq<Seq<u8>> {
    piles.update(
        p,
        piles[p].update(piles[p].len() - 1, flipped(piles[p].last())),
    )
}

/// Whether applying the move reveals a card: the origin pile
/// auto-reveals, is non-empty, and its new top lies face down.
pub open spec fn hook_flips(game: GameKind, m: Move, piles: Seq<Seq<u8>>) -> bool {
    &&& (m.origin_stack as int) < reveal_limit_spec(game)
    &&& (m.origin_stack as int) < piles.len()
    &&& piles[m.origin_stack as int].len() > 0
    &&& face_down(piles[m.origin_stack as int].last())
}

/// The game hook run right after a move is applied: it turns a newly
/// exposed face-down top card face up and records the pile it did that
/// to in the move's `flip_index`, so an undo can reverse it exactly.
pub open spec fn hook_apply_spec(game: GameKind, m: Move, piles: Seq<Seq<u8>>) -> (Move, Seq<
    Seq<u8>,
>) {
    if hook_flips(game, m, piles) {
        (
            (Move { flip_index: Some(m.origin_stack), ..m }),
            flip_top(piles, m.origin_stack as int),
        )
    } else {
        ((Move { flip_index: None::<usize>, ..m }), piles)
    }
}

/// The game hook run right before a move is reversed: it re-hides the
/// card that `flip_index` says the forward application revealed.
pub open spec fn hook_undo_spec(m: Move, piles: Seq<Seq<u8>>) -> Seq<Seq<u8>> {
    match m.flip_index {
        Some(i) => if (i as int) < piles.len() && piles[i as int].len() > 0 {
            flip_top(piles, i as int)
        } else {
            piles
        },
        None => piles,
    }
}

/// The per-game side-effect hook (auto-revealing a newly exposed card).
/// Applying and then undoing it restores the piles byte for byte.
pub fn game_on_move(game: GameKind, move_option: &mut Move, piles: &mut Vec<Vec<u8>>, undo: bool)
    ensures
        !undo ==> ({
            let r = hook_apply_spec(game, *old(move_option), piles_view(*old(piles)));
            *final(move_option) == r.0 && piles_view(*final(piles)) == r.1
        }),
        undo ==> *final(move_option) == *old(move_option) && piles_view(*final(piles))
            == hook_undo_spec(*old(move_option), piles_view(*old(piles))),
{
    if !undo {
        let o = move_option.origin_stack;
        let limit = match game {
            GameKind::Klondike => KLONDIKE_TABLEAU_COUNT,
            GameKind::OneFoundation { play_piles } => play_piles,
        };
        if o < limit && o < piles.len() && piles[o].len() > 0 && is_flipped(
            &piles[o][piles[o].len() - 1],
        ) {
            flip_pile_top(piles, o);
            move_option.flip_index = Some(o);
        } else {
            move_option.flip_index = None;
        }
    } else {
        if let Some(i) = move_option.flip_index {
            if i < piles.len() && piles[i].len() > 0 {
                flip_pile_top(piles, i);
            }
        }
    }
}

/// Turns over the top card of pile `p`.
pub(crate) fn flip_pile_top(piles: &mut Vec<Vec<u8>>, p: usize)
    requires
        (p as int) < old(piles)@.len(),
        old(piles)@[p as int]@.len() > 0,
    ensures
        piles_view(*final(piles)) == flip_top(piles_view(*old(piles)), p as int),
{
    let mut pile = crate::solver::clone_pile(&piles[p]);
    let top = pile.len() - 1;
    let c = card_flipped(&pile[top]);
    pile[top] = c;
    piles[p] = pile;
    proof {
        assert(piles_view(*piles) =~= flip_top(piles_view(*old(piles)), p as int));
    }
}

/// The hook round-trips: undoing an applied hook restores the piles,
/// and the hook never changes which cards a move relocates.
pub proof fn lemma_hook_round_trip(game: GameKind, m: Move, piles: Seq<Seq<u8>>)
    ensures
        ({
            let r = hook_apply_spec(game, m, piles);
            &&& hook_undo_spec(r.0, r.1) == piles
            &&& r.1.len() == piles.len()
            &&& r.0.card == m.card
            &&& r.0.origin_stack == m.origin_stack
            &&& r.0.destination_stack == m.destination_stack
            &&& r.0.instruction == m.instruction
        }),
{
    if hook_flips(game, m, piles) {
        let o = m.origin_stack as int;
        let s2 = flip_top(piles, o);
        assert(s2[o].len() == piles[o].len());
        crate::card::lemma_flip_involution(piles[o].last());
        assert(flip_top(s2, o)[o] =~= piles[o]);
        assert(hook_undo_spec(hook_apply_spec(game, m, piles).0, s2) =~= piles);
    }
}

/// The hook keeps card identities distinct and pile sizes unchanged.
pub proof fn lemma_hook_preserves_distinct(game: GameKind, m: Move, piles: Seq<Seq<u8>>)
    requires
        distinct_card_ids(piles),
    ensures
        ({
            let s2 = hook_apply_spec(game, m, piles).1;
            &&& distinct_card_ids(s2)
            &&& s2.len() == piles.len()
            &&& forall|p: int| 0 <= p < piles.len() ==> #[trigger] s2[p].len() == piles[p].len()
        }),
{
    let s2 = hook_apply_spec(game, m, piles).1;
    if hook_flips(game, m, piles) {
        let o = m.origin_stack as int;
        assert forall|p: int, i: int|
            0 <= p < s2.len() && 0 <= i < s2[p].len() implies #[trigger] card_id(s2[p][i])
            == card_id(piles[p][i]) by {
            if p == o && i == piles[o].len() - 1 {
                crate::card::lemma_flip_involution(piles[o].last());
            }
        }
        assert forall|p: int, i: int, q: int, j: int|
            0 <= p < s2.len() && 0 <= i < s2[p].len() && 0 <= q < s2.len() && 0 <= j < s2[q].len()
                && (p != q || i != j) implies card_id(s2[p][i]) != card_id(s2[q][j]) by {
            assert(card_id(s2[p][i]) == card_id(piles[p][i]));
            assert(card_id(s2[q][j]) == card_id(piles[q][j]));
            assert(card_id(piles[p][i]) != card_id(piles[q][j]));
        }
    }
}

/// One full candidate expansion, as the search driver performs it: the
/// move applied to the state, then the game hook. Returns the move as
/// it is recorded (its `flip_index` filled in, its `card` restored) and
/// the candidate canonical state, or nothing if the move does not apply.
pub open spec fn expand_spec(game: GameKind, s: Seq<Seq<u8>>, m: Move) -> Option<(Move, Seq<
    Seq<u8>,
>)> {
    if move_applies(s, m, false) {
        let m1 = (Move { card: card_after_move(s, m, false), ..m });
        let s1 = state_after_move(s, m, false);
        let r = hook_apply_spec(game, m1, s1);
        Some(((Move { card: m.card, ..r.0 }), r.1))
    } else {
        None
    }
}

/// A candidate expansion depends only on the move's piles, card and
/// instruction, never on its incoming `flip_index`.
pub proof fn lemma_expand_ignores_flip_index(game: GameKind, s: Seq<Seq<u8>>, m1: Move, m2: Move)
    requires
        m1.origin_stack == m2.origin_stack,
        m1.card == m2.card,
        m1.destination_stack == m2.destination_stack,
        m1.instruction == m2.instruction,
    ensures
        expand_spec(game, s, m1) == expand_spec(game, s, m2),
{
    assert(move_applies(s, m1, false) == move_applies(s, m2, false));
    if move_applies(s, m1, false) {
        assert(state_after_move(s, m1, false) == state_after_move(s, m2, false));
        assert(card_after_move(s, m1, false) == card_after_move(s, m2, false));
    }
}

/// Move/undo symmetry, side effects included: applying a move (the
/// relocation, then the game hook with its `flip_index` record) and
/// then its exact inverse (re-hiding what `flip_index` names, then the
/// reverse relocation) restores every pile byte for byte, on any state
/// whose card identities are distinct.
pub proof fn lemma_move_round_trip(game: GameKind, s: Seq<Seq<u8>>, m: Move)
    requires
        move_applies(s, m, false),
        distinct_card_ids(s),
    ensures
        ({
            let m1 = (Move { card: card_after_move(s, m, false), ..m });
            let s1 = state_after_move(s, m, false);
            let r = hook_apply_spec(game, m1, s1);
            &&& move_applies(r.1, r.0, true) || move_applies(hook_undo_spec(r.0, r.1), r.0, true)
            &&& state_after_move(hook_undo_spec(r.0, r.1), r.0, true) == s
        }),
{
    let m1 = (Move { card: card_after_move(s, m, false), ..m });
    let s1 = state_after_move(s, m, false);
    let r = hook_apply_spec(game, m1, s1);
    lemma_hook_round_trip(game, m1, s1);
    assert(hook_undo_spec(r.0, r.1) == s1);
    crate::solver::lemma_move_undo_symmetry(s, m);
    assert(state_after_move(s1, r.0, true) == state_after_move(s1, m1, true));
}


/// Whether the move expands, from this layout, exactly to the canonical
/// state `s`.
pub open spec fn stored_is_expansion(game: GameKind, piles: Seq<Seq<u8>>, m: Move, s: Seq<
    Seq<u8>,
>) -> bool {
    match expand_spec(game, piles, m) {
        Some(p) => p.1 == s,
        None => false,
    }
}

/// Whether the move applies to this layout and its canonical expansion
/// is among the stored states.
pub open spec fn expansion_stored(
    game: GameKind,
    piles: Seq<Seq<u8>>,
    m: Move,
    elems: Seq<Seq<Seq<u8>>>,
) -> bool {
    match expand_spec(game, piles, m) {
        Some(p) => elems.contains(p.1),
        None => false,
    }
}

/// Whether the move applies to this layout and expanding it reaches a
/// won layout.
pub open spec fn expansion_won(game: GameKind, piles: Seq<Seq<u8>>, m: Move) -> bool {
    match expand_spec(game, piles, m) {
        Some(p) => is_won_spec(game, p.1),
        None => false,
    }
}

/// One-foundation candidate: play pile `i` is non-empty, its top lies
/// face up, and that top continues the foundation (or is an ace when
/// the foundation is empty).
pub open spec fn one_foundation_candidate(play_piles: int, piles: Seq<Seq<u8>>, i: int) -> bool {
    &&& 0 <= i < play_piles
    &&& piles[i].len() > 0
    &&& !face_down(piles[i].last())
    &&& (if piles[play_piles].len() == 0 {
        rank_of(piles[i].last()) == 0
    } else {
        suit_of(piles[play_piles].last()) == suit_of(piles[i].last()) && rank_of(
            piles[play_piles].last(),
        ) + 1 == rank_of(piles[i].last())
    })
}

/// The move a one-foundation candidate files.
pub open spec fn one_foundation_move(play_piles: int, piles: Seq<Seq<u8>>, i: int) -> Move {
    Move {
        origin_stack: i as usize,
        card: piles[i].last(),
        destination_stack: play_piles as usize,
        instruction: MoveInstruction::Plain,
        flip_index: None,
    }
}

/// A one-foundation automove: an exposed ace while the foundation is
/// empty. It dominates all alternatives, so generation commits it and
/// stops.
pub open spec fn one_foundation_automove(play_piles: int, piles: Seq<Seq<u8>>, i: int) -> bool {
    one_foundation_candidate(play_piles, piles, i) && piles[play_piles].len() == 0
}

/// The candidate moves the game's generator proposes on a layout.
pub open spec fn is_candidate_move(game: GameKind, piles: Seq<Seq<u8>>, m: Move) -> bool {
    match game {
        GameKind::Klondike => crate::klondike::klondike_candidate_move(piles, m),
        GameKind::OneFoundation { play_piles } => exists|i: int|
            #[trigger] one_foundation_candidate(play_piles as int, piles, i) && m
                == one_foundation_move(play_piles as int, piles, i),
    }
}

/// The candidate moves the game's generator commits immediately as safe
/// automoves.
pub open spec fn is_automove_move(game: GameKind, piles: Seq<Seq<u8>>, m: Move) -> bool {
    match game {
        GameKind::Klondike => crate::klondike::klondike_automove_move(piles, m),
        GameKind::OneFoundation { play_piles } => exists|i: int|
            #[trigger] one_foundation_automove(play_piles as int, piles, i) && m
                == one_foundation_move(play_piles as int, piles, i),
    }
}

/// Whether the layout offers the generator a safe automove.
pub open spec fn has_automove(game: GameKind, piles: Seq<Seq<u8>>) -> bool {
    exists|m: Move| is_automove_move(game, piles, m)
}

/// Whether `s` is the canonical expansion of some candidate move on the
/// layout: only such states may join the stored states during
/// generation.
pub open spec fn some_candidate_expansion(
    game: GameKind,
    piles: Seq<Seq<u8>>,
    s: Seq<Seq<u8>>,
) -> bool {
    exists|m: Move| is_candidate_move(game, piles, m) && stored_is_expansion(game, piles, m, s)
}

/// Whether `s` is the canonical expansion of some safe automove on the
/// layout.
pub open spec fn some_automove_expansion(
    game: GameKind,
    piles: Seq<Seq<u8>>,
    s: Seq<Seq<u8>>,
) -> bool {
    exists|m: Move| is_automove_move(game, piles, m) && stored_is_expansion(game, piles, m, s)
}

/// Whether the expansion of some safe automove on the layout is among
/// the stored states.
pub open spec fn automove_expansion_stored(
    game: GameKind,
    piles: Seq<Seq<u8>>,
    elems: Seq<Seq<Seq<u8>>>,
) -> bool {
    exists|m: Move| is_automove_move(game, piles, m) && expansion_stored(game, piles, m, elems)
}

/// A stored expansion stays stored as the stored states grow.
pub proof fn lemma_stored_extended(
    game: GameKind,
    piles: Seq<Seq<u8>>,
    m: Move,
    pre: Seq<Seq<Seq<u8>>>,
    post: Seq<Seq<Seq<u8>>>,
)
    requires
        expansion_stored(game, piles, m, pre),
        crate::search::elems_extended(pre, post),
    ensures
        expansion_stored(game, piles, m, post),
{
    match expand_spec(game, piles, m) {
        Some(p) => {
            crate::search::lemma_extended_contains(pre, post, p.1);
        },
        None => {},
    }
}

/// Sum of the lengths of piles `from..to`.
pub open spec fn pile_len_sum(piles: Seq<Seq<u8>>, from: int, to: int) -> int
    decreases to - from,
{
    if from >= to {
        0
    } else {
        piles[from].len() + pile_len_sum(piles, from + 1, to)
    }
}

/// Extending the summed range by one pile adds that pile's length.
pub proof fn lemma_pile_len_sum_step(piles: Seq<Seq<u8>>, from: int, t: int)
    requires
        from <= t,
    ensures
        pile_len_sum(piles, from, t + 1) == pile_len_sum(piles, from, t) + piles[t].len(),
    decreases t - from,
{
    if from < t {
        lemma_pile_len_sum_step(piles, from + 1, t);
        assert(pile_len_sum(piles, from, t + 1) == piles[from].len() + pile_len_sum(
            piles,
            from + 1,
            t + 1,
        ));
    } else {
        assert(pile_len_sum(piles, t + 1, t + 1) == 0);
        assert(pile_len_sum(piles, t, t + 1) == piles[t].len());
        assert(pile_len_sum(piles, t, t) == 0);
    }
}

/// A sum of pile lengths is never negative.
pub proof fn lemma_pile_len_sum_nonneg(piles: Seq<Seq<u8>>, from: int, to: int)
    ensures
        pile_len_sum(piles, from, to) >= 0,
    decreases to - from,
{
    if from < to {
        lemma_pile_len_sum_nonneg(piles, from + 1, to);
    }
}

/// The range of foundation piles of the game, as a half-open interval.
pub open spec fn foundation_range(game: GameKind) -> (int, int) {
    match game {
        GameKind::Klondike => (
            KLONDIKE_FOUNDATION_START as int,
            KLONDIKE_FOUNDATION_START as int + 4,
        ),
        GameKind::OneFoundation { play_piles } => (play_piles as int, play_piles as int + 1),
    }
}

/// The search priority of a layout: how many cards its foundations
/// hold, capped at the highest bucket. More resolved cards means closer
/// to won.
pub open spec fn game_priority_spec(game: GameKind, piles: Seq<Seq<u8>>) -> int {
    let r = foundation_range(game);
    let outs = pile_len_sum(piles, r.0, r.1);
    if outs > 52 {
        52
    } else {
        outs
    }
}

/// Computes the layout's priority bucket.
pub fn game_priority(game: GameKind, piles: &Vec<Vec<u8>>) -> (r: usize)
    requires
        game_piles_ok(game, piles_view(*piles)),
    ensures
        r == game_priority_spec(game, piles_view(*piles)),
        r < NUM_BUCKETS,
{
    let (from, to): (usize, usize) = match game {
        GameKind::Klondike => (KLONDIKE_FOUNDATION_START, KLONDIKE_FOUNDATION_START + 4),
        GameKind::OneFoundation { play_piles } => (play_piles, piles.len()),
    };
    let ghost gv = piles_view(*piles);
    proof {
        assert(foundation_range(game) == (from as int, to as int));
    }
    let mut outs: usize = 0;
    proof {
        lemma_pile_len_sum_nonneg(gv, from as int, from as int);
    }
    for idx in from..to
        invariant
            from <= idx <= to,
            (to as int) <= gv.len(),
            gv == piles_view(*piles),
            outs == (if pile_len_sum(gv, from as int, idx as int) > 52 {
                52int
            } else {
                pile_len_sum(gv, from as int, idx as int)
            }),
    {
        proof {
            lemma_pile_len_sum_step(gv, from as int, idx as int);
            lemma_pile_len_sum_nonneg(gv, from as int, idx as int);
            assert(gv[idx as int] == piles@[idx as int]@);
        }
        let l = piles[idx].len();
        if l >= 52 - outs {
            outs = 52;
        } else {
            outs = outs + l;
        }
    }
    outs
}

/// Whether the layout is won: in Klondike every foundation ends on a
/// king; in the one-foundation game every play pile is empty.
pub open spec fn is_won_spec(game: GameKind, piles: Seq<Seq<u8>>) -> bool {
    match game {
        GameKind::Klondike => forall|f: int|
            #![trigger piles[f]]
            KLONDIKE_FOUNDATION_START <= f < KLONDIKE_FOUNDATION_START + 4 ==> (piles[f].len() > 0
                && rank_of(piles[f].last()) == 12),
        GameKind::OneFoundation { play_piles } => forall|p: int|
            #![trigger piles[p]]
            0 <= p < play_piles ==> piles[p].len() == 0,
    }
}

/// Decides whether the layout is won.
pub fn game_is_won(game: GameKind, piles: &Vec<Vec<u8>>) -> (r: bool)
    requires
        game_piles_ok(game, piles_view(*piles)),
    ensures
        r == is_won_spec(game, piles_view(*piles)),
{
    let ghost gv = piles_view(*piles);
    match game {
        GameKind::Klondike => {
            for f in KLONDIKE_FOUNDATION_START..KLONDIKE_FOUNDATION_START + 4
                invariant
                    game == GameKind::Klondike,
                    gv == piles_view(*piles),
                    gv.len() == KLONDIKE_PILE_COUNT,
                    KLONDIKE_FOUNDATION_START <= f <= KLONDIKE_FOUNDATION_START + 4,
                    forall|g: int|
                        KLONDIKE_FOUNDATION_START <= g < f ==> #[trigger] gv[g].len() > 0
                            && rank_of(gv[g].last()) == 12,
            {
                proof {
                    assert(gv[f as int] == piles@[f as int]@);
                }
                let pile = &piles[f];
                if pile.len() == 0 {
                    proof {
                        assert(!is_won_spec(game, gv));
                    }
                    return false;
                }
                let top = pile[pile.len() - 1];
                if crate::card::solver_card_to_id(&top) % 13 != 12 {
                    proof {
                        assert(gv[f as int].last() == top);
                        assert(!is_won_spec(game, gv));
                    }
                    return false;
                }
            }
            true
        },
        GameKind::OneFoundation { play_piles } => {
            for p in 0..play_piles
                invariant
                    game == (GameKind::OneFoundation { play_piles }),
                    gv == piles_view(*piles),
                    gv.len() == play_piles + 1,
                    forall|q: int| 0 <= q < p ==> #[trigger] gv[q].len() == 0,
            {
                if piles[p].len() > 0 {
                    proof {
                        assert(gv[p as int] == piles@[p as int]@);
                        assert(!is_won_spec(game, gv));
                    }
                    return false;
                }
            }
            true
        },
    }
}

/// Replaying a move sequence from a state: each move is expanded in
/// turn (applied, then the game hook run); the replay fails if any move
/// does not apply to the state it meets.
pub open spec fn replay_spec(game: GameKind, s: Seq<Seq<u8>>, moves: Seq<Move>) -> Option<
    Seq<Seq<u8>>,
>
    decreases moves.len(),
{
    if moves.len() == 0 {
        Some(s)
    } else {
        match expand_spec(game, s, moves[0]) {
            Some(p) => replay_spec(game, p.1, moves.subrange(1, moves.len() as int)),
            None => None,
        }
    }
}

/// Replaying one more move continues from where the replay so far ended.
pub proof fn lemma_replay_push(game: GameKind, s: Seq<Seq<u8>>, moves: Seq<Move>, m: Move)
    ensures
        replay_spec(game, s, moves.push(m)) == (match replay_spec(game, s, moves) {
            Some(t) => match expand_spec(game, t, m) {
                Some(p) => Some(p.1),
                None => None::<Seq<Seq<u8>>>,
            },
            None => None::<Seq<Seq<u8>>>,
        }),
    decreases moves.len(),
{
    if moves.len() == 0 {
        assert(moves.push(m)[0] == m);
        assert(moves.push(m).subrange(1, 1) =~= Seq::<Move>::empty());
        assert(replay_spec(game, s, moves) == Some(s));
        match expand_spec(game, s, m) {
            Some(p) => {
                assert(replay_spec(game, p.1, Seq::<Move>::empty()) == Some(p.1));
                assert(replay_spec(game, s, moves.push(m)) == Some(p.1));
            },
            None => {
                assert(replay_spec(game, s, moves.push(m)) is None);
            },
        }
    } else {
        assert(moves.push(m)[0] == moves[0]);
        assert(moves.push(m).subrange(1, moves.len() as int + 1) =~= moves.subrange(
            1,
            moves.len() as int,
        ).push(m));
        match expand_spec(game, s, moves[0]) {
            Some(p) => {
                lemma_replay_push(game, p.1, moves.subrange(1, moves.len() as int), m);
            },
            None => {},
        }
    }
}

/// Scans the play piles for an automove: an exposed ace while the
/// foundation pile is empty.
fn one_foundation_find_automove(state: &crate::search::State) -> (r: Option<usize>)
    requires
        state.wf(),
        state.game is OneFoundation,
    ensures
        (match state.game {
            GameKind::OneFoundation { play_piles } => (match r {
                Some(i) => one_foundation_automove(play_piles as int, state.piles(), i as int),
                None => forall|i: int|
                    !one_foundation_automove(play_piles as int, state.piles(), i),
            }),
            GameKind::Klondike => true,
        }),
{
    let play_piles = match state.game {
        GameKind::OneFoundation { play_piles } => play_piles,
        GameKind::Klondike => {
            return None;
        },
    };
    proof {
        state.lemma_state_current();
    }
    if state.get_stack(play_piles).len() > 0 {
        return None;
    }
    for i in 0..play_piles
        invariant
            state.wf(),
            state.game == (GameKind::OneFoundation { play_piles }),
            state.piles().len() == play_piles + 1,
            state.piles()[play_piles as int].len() == 0,
            forall|i0: int|
                0 <= i0 < i ==> !one_foundation_automove(play_piles as int, state.piles(), i0),
    {
        let pile_len = state.get_stack(i).len();
        if pile_len > 0 {
            let c = state.get_stack(i)[pile_len - 1];
            if !is_flipped(&c) && crate::card::solver_card_to_id(&c) % 13 == 0 {
                return Some(i);
            }
        }
    }
    None
}

/// The move generator of the one-foundation game. A first pass looks
/// for an automove (an exposed ace onto the empty foundation) and, when
/// one exists, commits it and stops: its expansion is the only addition.
/// Otherwise every candidate (each exposed card that continues the
/// foundation's suit run) is filed, so each candidate's expansion ends
/// up among the stored states; nothing but candidate expansions is ever
/// added.
pub fn one_foundation_generate(state: &mut crate::search::State)
    requires
        old(state).wf(),
        old(state).game is OneFoundation,
    ensures
        final(state).wf(),
        final(state).game == old(state).game,
        final(state).initial == old(state).initial,
        final(state).q_index == old(state).q_index,
        final(state).parent_node == old(state).parent_node,
        final(state).piles() == old(state).piles(),
        crate::search::elems_extended(old(state).elems(), final(state).elems()),
        forall|k: int| old(state).queued(k) ==> final(state).queued(k),
        forall|k: int|
            old(state).nodes@.len() <= k < final(state).nodes@.len() ==> final(state).queued(k),
        forall|k: int|
            #![trigger final(state).elems()[k]]
            old(state).elems().len() <= k < final(state).elems().len()
                ==> some_candidate_expansion(
                old(state).game,
                old(state).piles(),
                final(state).elems()[k],
            ),
        !has_automove(old(state).game, old(state).piles()) ==> forall|m: Move|
            is_candidate_move(old(state).game, old(state).piles(), m) ==> expansion_stored(
                old(state).game,
                old(state).piles(),
                m,
                final(state).elems(),
            ),
        has_automove(old(state).game, old(state).piles()) ==> final(state).elems().len() <= old(
            state,
        ).elems().len() + 1 && automove_expansion_stored(
            old(state).game,
            old(state).piles(),
            final(state).elems(),
        ),
        has_automove(old(state).game, old(state).piles()) ==> forall|k: int|
            #![trigger final(state).elems()[k]]
            old(state).elems().len() <= k < final(state).elems().len()
                ==> some_automove_expansion(
                old(state).game,
                old(state).piles(),
                final(state).elems()[k],
            ),
{
    let play_piles = match state.game {
        GameKind::OneFoundation { play_piles } => play_piles,
        GameKind::Klondike => {
            return ;
        },
    };
    let ghost game0 = state.game;
    let ghost piles0 = state.piles();
    let ghost play = play_piles as int;
    let f = play_piles;
    proof {
        state.lemma_state_current();
    }
    if let Some(i) = one_foundation_find_automove(state) {
        let pile_len = state.get_stack(i).len();
        let c = state.get_stack(i)[pile_len - 1];
        let ghost am = one_foundation_move(play, piles0, i as int);
        let mv = crate::solver::create_move(i, &c, f, crate::solver::MoveInstruction::Plain);
        proof {
            assert(piles0[i as int].contains(c)) by {
                assert(piles0[i as int][pile_len - 1] == c);
            }
            assert(mv == am);
        }
        let ghost elems_before = old(state).elems();
        state.file_candidate(mv, 100);
        proof {
            assert(is_automove_move(game0, piles0, am));
            assert(is_candidate_move(game0, piles0, am));
            assert(has_automove(game0, piles0));
            assert(automove_expansion_stored(game0, piles0, state.elems()));
            assert forall|k: int| #![trigger state.elems()[k]]
                elems_before.len() <= k < state.elems().len() implies some_candidate_expansion(
                game0,
                piles0,
                state.elems()[k],
            ) && some_automove_expansion(game0, piles0, state.elems()[k]) by {
                assert(stored_is_expansion(game0, piles0, am, state.elems()[k]));
            }
        }
        return ;
    }
    proof {
        assert(!has_automove(game0, piles0)) by {
            if exists|m: Move| is_automove_move(game0, piles0, m) {
                let m = choose|m: Move| is_automove_move(game0, piles0, m);
                let i = choose|i: int|
                    one_foundation_automove(play, piles0, i) && m == one_foundation_move(
                        play,
                        piles0,
                        i,
                    );
                assert(false);
            }
        }
    }
    for i in 0..play_piles
        invariant
            state.wf(),
            state.game == old(state).game,
            state.initial == old(state).initial,
            state.q_index == old(state).q_index,
            state.parent_node == old(state).parent_node,
            state.piles() == old(state).piles(),
            state.game == (GameKind::OneFoundation { play_piles }),
            game0 == state.game,
            piles0 == state.piles(),
            play == play_piles as int,
            f == play_piles,
            state.piles().len() == play_piles + 1,
            crate::search::elems_extended(old(state).elems(), state.elems()),
            forall|k: int| old(state).queued(k) ==> state.queued(k),
            forall|k: int|
                old(state).nodes@.len() <= k < state.nodes@.len() ==> state.queued(k),
            forall|k: int|
                #![trigger state.elems()[k]]
                old(state).elems().len() <= k < state.elems().len()
                    ==> some_candidate_expansion(game0, piles0, state.elems()[k]),
            forall|i0: int|
                0 <= i0 < i && one_foundation_candidate(play, piles0, i0) ==> expansion_stored(
                    game0,
                    piles0,
                    one_foundation_move(play, piles0, i0),
                    state.elems(),
                ),
    {
        let ghost elems_before = state.elems();
        let pile_len = state.get_stack(i).len();
        let mut filed = false;
        let ghost cand_m = one_foundation_move(play, piles0, i as int);
        if pile_len > 0 {
            let c = state.get_stack(i)[pile_len - 1];
            if !is_flipped(&c) {
                let foundation_len = state.get_stack(f).len();
                let fits = if foundation_len == 0 {
                    crate::card::solver_card_to_id(&c) % 13 == 0
                } else {
                    let t = state.get_stack(f)[foundation_len - 1];
                    crate::card::is_same_suit(&t, &c) && crate::card::is_one_rank_above(&t, &c)
                };
                if fits {
                    let mv = crate::solver::create_move(
                        i,
                        &c,
                        f,
                        crate::solver::MoveInstruction::Plain,
                    );
                    proof {
                        assert(piles0[i as int].contains(c)) by {
                            assert(piles0[i as int][pile_len - 1] == c);
                        }
                        assert(one_foundation_candidate(play, piles0, i as int));
                        assert(mv == cand_m);
                    }
                    state.file_candidate(mv, 1);
                    filed = true;
                    proof {
                        assert(is_candidate_move(game0, piles0, cand_m));
                    }
                }
            }
        }
        proof {
            if !filed {
                assert(!one_foundation_candidate(play, piles0, i as int));
            }
            assert forall|k: int| #![trigger state.elems()[k]]
                old(state).elems().len() <= k < state.elems().len()
                    implies some_candidate_expansion(game0, piles0, state.elems()[k]) by {
                if k < elems_before.len() {
                    assert(state.elems()[k] == elems_before[k]);
                    assert(some_candidate_expansion(game0, piles0, elems_before[k]));
                } else {
                    assert(filed);
                    assert(stored_is_expansion(game0, piles0, cand_m, state.elems()[k]));
                    assert(is_candidate_move(game0, piles0, cand_m));
                    assert(some_candidate_expansion(game0, piles0, state.elems()[k]));
                }
            }
            assert forall|i0: int|
                0 <= i0 < i + 1 && one_foundation_candidate(play, piles0, i0)
                    implies expansion_stored(
                game0,
                piles0,
                one_foundation_move(play, piles0, i0),
                state.elems(),
            ) by {
                if i0 < i {
                    match expand_spec(game0, piles0, one_foundation_move(play, piles0, i0)) {
                        Some(p) => {
                            crate::search::lemma_extended_contains(
                                elems_before,
                                state.elems(),
                                p.1,
                            );
                        },
                        None => {},
                    }
                }
            }
        }
    }
    proof {
        assert forall|m: Move|
            is_candidate_move(game0, piles0, m) implies expansion_stored(
            game0,
            piles0,
            m,
            state.elems(),
        ) by {
            let i0 = choose|i0: int|
                one_foundation_candidate(play, piles0, i0) && m == one_foundation_move(
                    play,
                    piles0,
                    i0,
                );
            assert(expansion_stored(game0, piles0, one_foundation_move(play, piles0, i0), state.elems()));
        }
    }
}

} // verus!
