//! The pile/move model: moves over an indexed collection of card piles,
//! applied destructively and reversed exactly.

use vstd::prelude::*;
use crate::card::{card_id, flipped, card_flipped};

verus! {

/// What a move does beyond relocating a run of cards: `Flip` reassigns
/// every card from the split point to the top of the origin pile onto
/// the destination pile, reversing their order and flipping each card's
/// face in transit (used for "deal to waste" and "recycle waste").
#[derive(Clone, Copy, Debug, PartialEq, Eq, Structural)]
pub enum MoveInstruction {
    Flip,
    Plain,
}

/// A relocation of a contiguous run of cards, from the first occurrence
/// of `card` in the origin pile up to that pile's top, onto the
/// destination pile. `flip_index` records the pile whose top card was
/// revealed as a side effect, so that an undo can re-hide it.
#[derive(Clone, Copy, Debug, PartialEq)]
pub struct Move {
    pub origin_stack: usize,
    pub card: u8,
    pub destination_stack: usize,
    pub instruction: MoveInstruction,
    pub flip_index: Option<usize>,
}

/// A fatal contract violation: the move references piles or a card that
/// the state does not have. These indicate a logic bug in a move
/// generator, never a normal game outcome.
#[derive(Clone, Copy, Debug, PartialEq, Eq, Structural)]
pub enum SolverError {
    /// The move's origin pile equals its destination pile.
    SameStack,
    /// An origin or destination index lies outside the state.
    StackOutOfRange,
    /// The moved card does not occur in its claimed origin pile.
    CardNotFound,
}

/// The pile contents of a game state, as a sequence of card sequences
/// (bottom of each pile first).
pub open spec fn piles_view(v: Vec<Vec<u8>>) -> Seq<Seq<u8>> {
    Seq::new(v@.len(), |i: int| v@[i]@)
}

/// Whether `i` is the first position of `card` in `pile`.
pub open spec fn is_first_index(pile: Seq<u8>, card: u8, i: int) -> bool {
    &&& 0 <= i < pile.len()
    &&& pile[i] == card
    &&& forall|j: int| 0 <= j < i ==> pile[j] != card
}

/// The first position of `card` in `pile` (meaningful only when the
/// pile contains the card).
pub open spec fn first_index(pile: Seq<u8>, card: u8) -> int {
    choose|i: int| is_first_index(pile, card, i)
}

/// A pile that contains a card has a first position for it.
pub proof fn lemma_first_index_exists(pile: Seq<u8>, card: u8)
    requires
        pile.contains(card),
    ensures
        is_first_index(pile, card, first_index(pile, card)),
{
    pile.index_of_first_ensures(card);
    let witness = pile.index_of_first(card).unwrap();
    assert(is_first_index(pile, card, witness));
}

/// The pile that acts as the source of cards: the move's origin when
/// applying, its destination when undoing.
pub open spec fn effective_origin(m: Move, undo: bool) -> usize {
    if undo {
        m.destination_stack
    } else {
        m.origin_stack
    }
}

/// The pile that receives cards: the move's destination when applying,
/// its origin when undoing.
pub open spec fn effective_dest(m: Move, undo: bool) -> usize {
    if undo {
        m.origin_stack
    } else {
        m.destination_stack
    }
}

/// Whether the move can be performed on the state in the given
/// direction: distinct in-range piles, and the moved card present in
/// the effective origin pile.
pub open spec fn move_applies(state: Seq<Seq<u8>>, m: Move, undo: bool) -> bool {
    &&& m.origin_stack != m.destination_stack
    &&& (m.origin_stack as int) < state.len()
    &&& (m.destination_stack as int) < state.len()
    &&& state[effective_origin(m, undo) as int].contains(m.card)
}

/// The run `run`, reversed, with every card's face flipped: the cards
/// that a `Flip` move appends to its destination pile.
pub open spec fn flip_run(run: Seq<u8>) -> Seq<u8> {
    Seq::new(run.len(), |i: int| flipped(run[run.len() - 1 - i]))
}

/// The cards appended to the destination pile: the run itself for a
/// plain move, the reversed and flipped run for a `Flip` move.
pub open spec fn moved_cards(origin: Seq<u8>, i: int, instruction: MoveInstruction) -> Seq<u8> {
    let run = origin.subrange(i, origin.len() as int);
    if instruction is Flip {
        flip_run(run)
    } else {
        run
    }
}

/// The state after performing the move in the given direction: the run
/// from the split point leaves the effective origin and lands on top of
/// the effective destination.
pub open spec fn state_after_move(state: Seq<Seq<u8>>, m: Move, undo: bool) -> Seq<Seq<u8>>
    recommends
        move_applies(state, m, undo),
{
    let o = effective_origin(m, undo) as int;
    let d = effective_dest(m, undo) as int;
    let origin = state[o];
    let i = first_index(origin, m.card);
    state.update(o, origin.subrange(0, i)).update(d, state[d] + moved_cards(origin, i, m.instruction))
}

/// The move's `card` field after performing it: a `Flip` move records
/// the flipped image of the origin pile's old top card, so that the
/// reverse direction can find it; a plain move keeps its card.
pub open spec fn card_after_move(state: Seq<Seq<u8>>, m: Move, undo: bool) -> u8
    recommends
        move_applies(state, m, undo),
{
    if m.instruction is Flip {
        flipped(state[effective_origin(m, undo) as int].last())
    } else {
        m.card
    }
}

/// No card identity occurs twice across all piles of a state (the two
/// faces of one card count as the same identity). Every layout dealt
/// from one deck satisfies this.
pub open spec fn distinct_card_ids(state: Seq<Seq<u8>>) -> bool {
    forall|p: int, i: int, q: int, j: int|
        #![trigger state[p][i], state[q][j]]
        0 <= p < state.len() && 0 <= i < state[p].len() && 0 <= q < state.len() && 0 <= j
            < state[q].len() && (p != q || i != j) ==> card_id(state[p][i]) != card_id(state[q][j])
}

/// Two first positions of one card are the same position.
pub proof fn lemma_first_index_unique(pile: Seq<u8>, card: u8, i: int)
    requires
        is_first_index(pile, card, i),
    ensures
        first_index(pile, card) == i,
{
    assert(pile.contains(card)) by {
        assert(pile[i] == card);
    }
    lemma_first_index_exists(pile, card);
    let a = first_index(pile, card);
    if a < i {
        assert(pile[a] == card);
        assert(false);
    } else if a > i {
        assert(pile[i] == card);
        assert(false);
    }
}

/// Reversing and flipping a run twice gives the run back.
pub proof fn lemma_flip_run_involution(run: Seq<u8>)
    ensures
        flip_run(flip_run(run)) == run,
{
    let twice = flip_run(flip_run(run));
    assert forall|t: int| 0 <= t < run.len() implies twice[t] == run[t] by {
        let n = run.len() as int;
        assert(flip_run(run)[n - 1 - t] == flipped(run[t]));
        crate::card::lemma_flip_involution(run[t]);
    }
    assert(twice =~= run);
}

/// Move/undo symmetry: performing a move and then performing it again
/// in the undo direction (with the `card` field the forward application
/// left behind) restores every pile exactly, and restores the `card`
/// field, on any state whose card identities are distinct.
pub proof fn lemma_move_undo_symmetry(state: Seq<Seq<u8>>, m: Move)
    requires
        move_applies(state, m, false),
        distinct_card_ids(state),
    ensures
        ({
            let s1 = state_after_move(state, m, false);
            let m1 = (Move { card: card_after_move(state, m, false), ..m });
            &&& move_applies(s1, m1, true)
            &&& state_after_move(s1, m1, true) == state
            &&& card_after_move(s1, m1, true) == m.card
        }),
{
    let o = m.origin_stack as int;
    let d = m.destination_stack as int;
    let origin = state[o];
    let dest = state[d];
    let dlen = dest.len() as int;
    let olen = origin.len() as int;
    lemma_first_index_exists(origin, m.card);
    let i = first_index(origin, m.card);
    let run = origin.subrange(i, olen);
    let rlen = olen - i;
    let moved = moved_cards(origin, i, m.instruction);
    let s1 = state_after_move(state, m, false);
    let m1 = (Move { card: card_after_move(state, m, false), ..m });
    assert(s1[o] == origin.subrange(0, i));
    assert(s1[d] == dest + moved);
    assert(moved.len() == rlen);

    // The forward move left `m1.card` as the first card of the moved run,
    // and its identity is one that pile `o` held before the move.
    let src = if m.instruction is Flip {
        olen - 1
    } else {
        i
    };
    assert(moved[0] == m1.card) by {
        if m.instruction is Flip {
            assert(flip_run(run)[0] == flipped(run[rlen - 1]));
            assert(run[rlen - 1] == origin[olen - 1]);
        } else {
            assert(run[0] == origin[i]);
        }
    }
    assert(card_id(m1.card) == card_id(origin[src])) by {
        if m.instruction is Flip {
            crate::card::lemma_flip_involution(origin[olen - 1]);
        }
    }

    // No card of the old destination pile equals `m1.card`, so the undo
    // direction splits exactly at the boundary of the moved run.
    assert forall|j: int| 0 <= j < dlen implies dest[j] != m1.card by {
        assert(card_id(state[d][j]) != card_id(state[o][src]));
    }
    assert(is_first_index(s1[d], m1.card, dlen)) by {
        assert(s1[d][dlen] == moved[0]);
    }
    assert(s1[d].contains(m1.card)) by {
        assert(s1[d][dlen] == m1.card);
    }
    assert(move_applies(s1, m1, true));
    lemma_first_index_unique(s1[d], m1.card, dlen);

    // The run that the undo moves back is exactly the forward run.
    let run_back = s1[d].subrange(dlen, dlen + rlen);
    assert(run_back =~= moved);
    let moved_back = moved_cards(s1[d], dlen, m.instruction);
    assert(moved_back == run) by {
        if m.instruction is Flip {
            lemma_flip_run_involution(run);
            assert(moved_back == flip_run(run_back));
            assert(flip_run(run_back) == flip_run(flip_run(run)));
        } else {
            assert(moved_back == run_back);
        }
    }

    // Undoing restores both piles, hence the whole state.
    let s2 = state_after_move(s1, m1, true);
    assert(s1[d].subrange(0, dlen) =~= dest);
    assert(s1[o] + moved_back =~= origin);
    assert(s2 =~= state);

    // Undoing restores the move's `card` field.
    assert(card_after_move(s1, m1, true) == m.card) by {
        if m.instruction is Flip {
            assert(s1[d].last() == moved[rlen - 1]);
            assert(flip_run(run)[rlen - 1] == flipped(run[0]));
            assert(run[0] == origin[i]);
            crate::card::lemma_flip_involution(origin[i]);
        }
    }
}

/// Performing a move never duplicates a card: a state with distinct
/// card identities keeps them distinct.
pub proof fn lemma_move_preserves_distinct(state: Seq<Seq<u8>>, m: Move, undo: bool)
    requires
        move_applies(state, m, undo),
        distinct_card_ids(state),
    ensures
        distinct_card_ids(state_after_move(state, m, undo)),
{
    let o = effective_origin(m, undo) as int;
    let d = effective_dest(m, undo) as int;
    let origin = state[o];
    let dest = state[d];
    let dlen = dest.len() as int;
    let olen = origin.len() as int;
    lemma_first_index_exists(origin, m.card);
    let i = first_index(origin, m.card);
    let rlen = olen - i;
    let s1 = state_after_move(state, m, undo);
    let flip = m.instruction is Flip;

    // Each position of the new state holds a card whose identity stood at
    // a computable position of the old state.
    let pos = |p: int, x: int| -> (int, int)
        {
            if p == d && x >= dlen {
                if flip {
                    (o, olen - 1 - (x - dlen))
                } else {
                    (o, i + (x - dlen))
                }
            } else {
                (p, x)
            }
        };
    assert forall|p: int, x: int| #![trigger s1[p][x]]
        0 <= p < s1.len() && 0 <= x < s1[p].len() implies {
        let (p0, x0) = pos(p, x);
        &&& 0 <= p0 < state.len()
        &&& 0 <= x0 < state[p0].len()
        &&& card_id(s1[p][x]) == card_id(state[p0][x0])
    } by {
        if p == d && x >= dlen {
            let moved = moved_cards(origin, i, m.instruction);
            assert(s1[d][x] == moved[x - dlen]);
            if flip {
                assert(moved[x - dlen] == flipped(origin[olen - 1 - (x - dlen)]));
                crate::card::lemma_flip_involution(origin[olen - 1 - (x - dlen)]);
            } else {
                assert(moved[x - dlen] == origin[i + (x - dlen)]);
            }
        } else if p == o {
            assert(s1[o][x] == origin[x]);
        } else if p == d {
            assert(s1[d][x] == dest[x]);
        }
    }

    // Distinct new positions trace back to distinct old positions, whose
    // identities the old state keeps distinct.
    assert forall|p: int, x: int, q: int, y: int|
        0 <= p < s1.len() && 0 <= x < s1[p].len() && 0 <= q < s1.len() && 0 <= y < s1[q].len() && (
        p != q || x != y) implies card_id(s1[p][x]) != card_id(s1[q][y]) by {
        let (p0, x0) = pos(p, x);
        let (q0, y0) = pos(q, y);
        assert(p0 != q0 || x0 != y0) by {
            if p == d && x >= dlen && q == d && y >= dlen {
                assert(x != y);
            } else if p == d && x >= dlen {
                if q == o {
                    assert(y < i);
                    assert(x0 >= i);
                }
            } else if q == d && y >= dlen {
                if p == o {
                    assert(x < i);
                    assert(y0 >= i);
                }
            }
        }
        assert(card_id(state[p0][x0]) != card_id(state[q0][y0]));
    }
}

/// Builds a move; `flip_index` starts unset and is filled in only as a
/// side effect of applying the move.
pub fn create_move(
    origin_stack: usize,
    card: &u8,
    destination_stack: usize,
    instruction: MoveInstruction,
) -> (r: Move)
    ensures
        r == (Move {
            origin_stack,
            card: *card,
            destination_stack,
            instruction,
            flip_index: None::<usize>,
        }),
{
    Move { origin_stack, card: *card, destination_stack, instruction, flip_index: None }
}

/// The first position of `card` in `pile`, if any.
pub fn find_first(pile: &Vec<u8>, card: u8) -> (r: Option<usize>)
    ensures
        match r {
            Some(i) => is_first_index(pile@, card, i as int),
            None => !pile@.contains(card),
        },
{
    let n = pile.len();
    for k in 0..n
        invariant
            n == pile@.len(),
            forall|j: int| 0 <= j < k ==> pile@[j] != card,
    {
        if pile[k] == card {
            return Some(k);
        }
    }
    None
}

/// A fresh pile with the same cards.
pub fn clone_pile(pile: &Vec<u8>) -> (r: Vec<u8>)
    ensures
        r@ == pile@,
{
    let mut r: Vec<u8> = Vec::new();
    let n = pile.len();
    for k in 0..n
        invariant
            n == pile@.len(),
            r@ == pile@.subrange(0, k as int),
    {
        r.push(pile[k]);
        proof {
            assert(r@ =~= pile@.subrange(0, k as int + 1));
        }
    }
    proof {
        assert(pile@.subrange(0, pile@.len() as int) =~= pile@);
    }
    r
}

/// A fresh copy of a whole pile layout.
pub fn clone_piles(piles: &Vec<Vec<u8>>) -> (r: Vec<Vec<u8>>)
    ensures
        piles_view(r) == piles_view(*piles),
        r@.len() == piles@.len(),
{
    let mut r: Vec<Vec<u8>> = Vec::new();
    let n = piles.len();
    for k in 0..n
        invariant
            n == piles@.len(),
            r@.len() == k,
            forall|j: int| 0 <= j < k ==> #[trigger] r@[j]@ == piles@[j]@,
    {
        r.push(clone_pile(&piles[k]));
    }
    proof {
        assert(piles_view(r) =~= piles_view(*piles));
    }
    r
}

/// Performs the move on the piles, or exactly reverses a performed move
/// when `undo` is set. On success the piles become `state_after_move`
/// and the move's `card` field becomes `card_after_move`; each error is
/// returned exactly when its invariant violation holds, and then
/// nothing is changed.
pub fn perform_state_move(
    move_option: &mut Move,
    game_state: &mut Vec<Vec<u8>>,
    undo: bool,
) -> (r: Result<(), SolverError>)
    ensures
        r is Ok <==> move_applies(piles_view(*old(game_state)), *old(move_option), undo),
        r == Err::<(), SolverError>(SolverError::SameStack) <==> old(move_option).origin_stack
            == old(move_option).destination_stack,
        r == Err::<(), SolverError>(SolverError::StackOutOfRange) <==> (old(move_option).origin_stack
            != old(move_option).destination_stack && (old(move_option).origin_stack
            >= old(game_state)@.len() || old(move_option).destination_stack >= old(
            game_state,
        )@.len())),
        r is Err ==> *final(move_option) == *old(move_option) && *final(game_state) == *old(
            game_state,
        ),
        r is Ok ==> piles_view(*final(game_state)) == state_after_move(
            piles_view(*old(game_state)),
            *old(move_option),
            undo,
        ),
        r is Ok ==> *final(move_option) == (Move {
            card: card_after_move(piles_view(*old(game_state)), *old(move_option), undo),
            ..*old(move_option)
        }),
{
    let ghost pre = piles_view(*game_state);
    if move_option.origin_stack == move_option.destination_stack {
        return Err(SolverError::SameStack);
    }
    let o = if undo {
        move_option.destination_stack
    } else {
        move_option.origin_stack
    };
    let d = if undo {
        move_option.origin_stack
    } else {
        move_option.destination_stack
    };
    if move_option.origin_stack >= game_state.len() || move_option.destination_stack
        >= game_state.len() {
        return Err(SolverError::StackOutOfRange);
    }
    let origin = clone_pile(&game_state[o]);
    let card_index = match find_first(&origin, move_option.card) {
        Some(i) => i,
        None => {
            return Err(SolverError::CardNotFound);
        },
    };
    let ghost i = card_index as int;
    proof {
        assert(pre[o as int].contains(move_option.card));
        lemma_first_index_exists(pre[o as int], move_option.card);
        assert(first_index(pre[o as int], move_option.card) == i);
    }
    let olen = origin.len();
    let mut new_dest = clone_pile(&game_state[d]);
    let ghost dest0 = pre[d as int];
    let ghost run = pre[o as int].subrange(i, olen as int);
    if matches!(move_option.instruction, MoveInstruction::Flip) {
        move_option.card = card_flipped(&origin[olen - 1]);
        let run_len = olen - card_index;
        for k in 0..run_len
            invariant
                run_len == olen - card_index,
                card_index < olen,
                olen == origin@.len(),
                origin@ == pre[o as int],
                run == pre[o as int].subrange(i, olen as int),
                i == card_index,
                new_dest@ == dest0 + Seq::new(k as nat, |t: int| flip_run(run)[t]),
        {
            new_dest.push(card_flipped(&origin[olen - 1 - k]));
            proof {
                assert(flip_run(run)[k as int] == flipped(origin@[olen - 1 - k]));
                assert(new_dest@ =~= dest0 + Seq::new(k as nat + 1, |t: int| flip_run(run)[t]));
            }
        }
        proof {
            assert(Seq::new(run_len as nat, |t: int| flip_run(run)[t]) =~= flip_run(run));
        }
    } else {
        let run_len = olen - card_index;
        for k in 0..run_len
            invariant
                run_len == olen - card_index,
                card_index < olen,
                olen == origin@.len(),
                origin@ == pre[o as int],
                run == pre[o as int].subrange(i, olen as int),
                i == card_index,
                new_dest@ == dest0 + Seq::new(k as nat, |t: int| run[t]),
        {
            new_dest.push(origin[card_index + k]);
            proof {
                assert(run[k as int] == origin@[i + k]);
                assert(new_dest@ =~= dest0 + Seq::new(k as nat + 1, |t: int| run[t]));
            }
        }
        proof {
            assert(Seq::new(run_len as nat, |t: int| run[t]) =~= run);
        }
    }
    let mut new_origin = origin;
    new_origin.truncate(card_index);
    game_state[o] = new_origin;
    game_state[d] = new_dest;
    proof {
        let m0 = *old(move_option);
        assert(piles_view(*game_state) =~= state_after_move(pre, m0, undo));
    }
    Ok(())
}

} // verus!
