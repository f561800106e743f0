//! The runtime/history layer: a `GameSession` owns the authoritative
//! board mirror (piles under board stack names), the move history with
//! undo/redo, the cached solution used for hints, and the re-solve
//! bookkeeping that keeps the solver's view consistent with player
//! actions.

use vstd::prelude::*;
use crate::card::card_id;
use crate::solver::{MoveInstruction, SolverError, piles_view, state_after_move, card_after_move,
    move_applies, perform_state_move, clone_piles, distinct_card_ids};
use crate::games::{GameKind, game_piles_ok, game_on_move, game_is_won, is_won_spec,
    hook_undo_spec, expand_spec, replay_spec};
use crate::names::{base_name, is_card_name, card_display_name, try_card_name,
    solver_card_to_name};

verus! {

/// A board-level move: piles are named rather than indexed, and the
/// moved card is named rather than encoded. Mirrors one player action
/// or one step of a solver history.
#[derive(Clone, Debug, PartialEq)]
pub struct Move {
    pub origin_stack: String,
    pub card_name: String,
    pub destination_stack: String,
    pub instruction: MoveInstruction,
    pub flip_index: Option<usize>,
}

/// Whether two board moves describe the same action: same piles, card
/// and instruction. The recorded reveal side effect (`flip_index`) is
/// bookkeeping, not identity.
pub open spec fn move_eq(a: Move, b: Move) -> bool {
    &&& a.origin_stack@ == b.origin_stack@
    &&& a.card_name@ == b.card_name@
    &&& a.destination_stack@ == b.destination_stack@
    &&& a.instruction == b.instruction
}

/// Builds a board move from borrowed names; `flip_index` starts unset.
pub fn create_move(
    origin_stack: &str,
    card_name: &str,
    destination_stack: &str,
    instruction: MoveInstruction,
) -> (r: Move)
    ensures
        r.origin_stack@ == origin_stack@,
        r.card_name@ == card_name@,
        r.destination_stack@ == destination_stack@,
        r.instruction == instruction,
        r.flip_index is None,
{
    Move {
        origin_stack: origin_stack.to_owned(),
        card_name: card_name.to_owned(),
        destination_stack: destination_stack.to_owned(),
        instruction,
        flip_index: None,
    }
}

/// Builds a board move from owned names; `flip_index` starts unset.
pub fn move_from_strings(
    origin_stack: String,
    card_name: String,
    destination_stack: String,
    instruction: MoveInstruction,
) -> (r: Move)
    ensures
        r == (Move {
            origin_stack,
            card_name,
            destination_stack,
            instruction,
            flip_index: None::<usize>,
        }),
{
    Move { origin_stack, card_name, destination_stack, instruction, flip_index: None }
}

/// A copy of a board move, equal to the original.
pub fn clone_move(m: &Move) -> (r: Move)
    ensures
        r == *m,
{
    Move {
        origin_stack: m.origin_stack.clone(),
        card_name: m.card_name.clone(),
        destination_stack: m.destination_stack.clone(),
        instruction: m.instruction,
        flip_index: m.flip_index,
    }
}

/// Decides whether two board moves describe the same action.
pub fn moves_equal(a: &Move, b: &Move) -> (r: bool)
    ensures
        r == move_eq(*a, *b),
{
    a.origin_stack == b.origin_stack && a.card_name == b.card_name && a.destination_stack
        == b.destination_stack && (match (a.instruction, b.instruction) {
        (MoveInstruction::Flip, MoveInstruction::Flip) => true,
        (MoveInstruction::Plain, MoveInstruction::Plain) => true,
        _ => false,
    })
}

/// Why a board-level operation was refused; these mark logic bugs or a
/// stale board, never normal game outcomes.
#[derive(Clone, Copy, Debug, PartialEq, Eq, Structural)]
pub enum SessionError {
    /// A move names a pile the session does not have.
    UnknownStack,
    /// A move names a card that is no valid card name, or one that its
    /// origin pile does not hold.
    UnknownCard,
    /// The pile/move model refused the translated move.
    BadMove(SolverError),
}

/// What a history-changing action asks of the caller next.
#[derive(Clone, Copy, Debug, PartialEq, Eq, Structural)]
pub enum AfterMove {
    /// The layout is won; no re-solve is needed.
    Won,
    /// The move matched the cached solution's head, which was consumed;
    /// the rest of the solution is still valid, so no re-solve is needed.
    CoveredBySolution,
    /// The cached solution no longer covers the board: a background
    /// re-solve should be started from the current layout.
    ResolveNeeded,
}

/// A live board: which game is played, the named authoritative piles,
/// the applied and undone move histories, the cached solution, and the
/// re-solve bookkeeping.
pub struct GameSession {
    /// The game variant being played.
    pub game: GameKind,
    /// The board's pile names, in pile order.
    pub stack_names: Vec<String>,
    /// The authoritative pile contents, mirrored from the board.
    pub piles: Vec<Vec<u8>>,
    /// Applied moves, oldest first.
    pub history: Vec<Move>,
    /// Undone moves, most recently undone last.
    pub undo_history: Vec<Move>,
    /// The cached best-known solution from the current layout, used for
    /// hints and auto-play.
    pub solution_moves: Vec<Move>,
    /// How often the stock has been recycled.
    pub n_deals: u8,
    /// The move index at which unsolvability was first observed, if any
    /// re-solve has failed since the last solution.
    pub first_unsolvable: Option<usize>,
    /// The solution that was still known at `first_unsolvable`, kept for
    /// rolling back.
    pub first_unsolvable_solution: Vec<Move>,
    /// Whether the player still wants to hear about unsolvable layouts.
    pub notify_unsolvable: bool,
}

impl GameSession {
    /// A fresh session with no piles, no history and no solution.
    pub fn new(game: GameKind) -> (r: GameSession)
        ensures
            r.game == game,
            r.stack_names@.len() == 0,
            r.piles@.len() == 0,
            r.history@.len() == 0,
            r.undo_history@.len() == 0,
            r.solution_moves@.len() == 0,
            r.n_deals == 0,
            r.first_unsolvable is None,
            r.notify_unsolvable == true,
    {
        GameSession {
            game,
            stack_names: Vec::new(),
            piles: Vec::new(),
            history: Vec::new(),
            undo_history: Vec::new(),
            solution_moves: Vec::new(),
            n_deals: 0,
            first_unsolvable: None,
            first_unsolvable_solution: Vec::new(),
            notify_unsolvable: true,
        }
    }

    /// Registers one more named pile on the board.
    pub fn add_stack(&mut self, name: String, pile: Vec<u8>)
        ensures
            final(self).stack_names@ == old(self).stack_names@.push(name),
            final(self).piles@ == old(self).piles@.push(pile),
            *final(self) == (GameSession {
                stack_names: final(self).stack_names,
                piles: final(self).piles,
                ..*old(self)
            }),
    {
        self.stack_names.push(name);
        self.piles.push(pile);
    }

    /// Forgets every registered pile (when a game is unloaded).
    pub fn clear_state(&mut self)
        ensures
            final(self).stack_names@.len() == 0,
            final(self).piles@.len() == 0,
            *final(self) == (GameSession {
                stack_names: final(self).stack_names,
                piles: final(self).piles,
                ..*old(self)
            }),
    {
        self.stack_names = Vec::new();
        self.piles = Vec::new();
    }

    /// A snapshot of the board for a solver: the pile names and a copy
    /// of the pile contents.
    pub fn get_solver_state(&self) -> (r: (Vec<String>, Vec<Vec<u8>>))
        ensures
            r.0@ == self.stack_names@,
            piles_view(r.1) == piles_view(self.piles),
    {
        let mut names: Vec<String> = Vec::new();
        let n = self.stack_names.len();
        for k in 0..n
            invariant
                n == self.stack_names@.len(),
                names@.len() == k,
                forall|j: int| 0 <= j < k ==> names@[j] == self.stack_names@[j],
        {
            names.push(self.stack_names[k].clone());
        }
        proof {
            assert(names@ =~= self.stack_names@);
        }
        (names, clone_piles(&self.piles))
    }

    /// How often the stock has been recycled.
    pub fn get_deals(&self) -> (r: u8)
        ensures
            r == self.n_deals,
    {
        self.n_deals
    }

    /// Records the stock-recycle count.
    pub fn update_deals(&mut self, n: u8)
        ensures
            final(self).n_deals == n,
            *final(self) == (GameSession { n_deals: n, ..*old(self) }),
    {
        self.n_deals = n;
    }

    /// The cached solution's next move, if a solution is known.
    pub fn get_hint(&self) -> (r: Option<Move>)
        ensures
            (match r {
                Some(m) => self.solution_moves@.len() > 0 && m == self.solution_moves@[0],
                None => self.solution_moves@.len() == 0,
            }),
    {
        if self.solution_moves.len() == 0 {
            None
        } else {
            Some(clone_move(&self.solution_moves[0]))
        }
    }

    /// Caches a fresh solution and re-arms the unsolvable notification.
    pub fn set_solution(&mut self, moves: Vec<Move>)
        ensures
            final(self).solution_moves == moves,
            final(self).notify_unsolvable == true,
            *final(self) == (GameSession {
                solution_moves: moves,
                notify_unsolvable: true,
                ..*old(self)
            }),
    {
        self.solution_moves = moves;
        self.notify_unsolvable = true;
    }

    /// Clears the histories and the cached solution (when a game ends
    /// or a new one is dealt).
    pub fn clear_history_and_moves(&mut self)
        ensures
            final(self).history@.len() == 0,
            final(self).undo_history@.len() == 0,
            final(self).solution_moves@.len() == 0,
            *final(self) == (GameSession {
                history: final(self).history,
                undo_history: final(self).undo_history,
                solution_moves: final(self).solution_moves,
                ..*old(self)
            }),
    {
        self.history = Vec::new();
        self.undo_history = Vec::new();
        self.solution_moves = Vec::new();
    }
}

/// Whether `i` is the first pile with the given name.
pub open spec fn is_name_index(names: Seq<String>, name: Seq<char>, i: int) -> bool {
    &&& 0 <= i < names.len()
    &&& names[i]@ == name
    &&& forall|j: int| 0 <= j < i ==> names[j]@ != name
}

/// Whether any pile bears the given name.
pub open spec fn has_stack(names: Seq<String>, name: Seq<char>) -> bool {
    exists|i: int| 0 <= i < names.len() && #[trigger] names[i]@ == name
}

/// Whether `j` is the first position in the pile whose card has the
/// given identity (either face).
pub open spec fn is_id_index(pile: Seq<u8>, id: u8, j: int) -> bool {
    &&& 0 <= j < pile.len()
    &&& card_id(pile[j]) == id
    &&& forall|t: int| 0 <= t < j ==> card_id(pile[t]) != id
}

/// Whether the pile holds a card with the given identity, either face.
pub open spec fn pile_has_id(pile: Seq<u8>, id: u8) -> bool {
    exists|j: int| 0 <= j < pile.len() && card_id(#[trigger] pile[j]) == id
}

/// The first pile with the given name, if any pile bears it.
pub fn find_stack(names: &Vec<String>, name: &String) -> (r: Option<usize>)
    ensures
        (match r {
            Some(i) => is_name_index(names@, name@, i as int),
            None => !has_stack(names@, name@),
        }),
{
    let n = names.len();
    for k in 0..n
        invariant
            n == names@.len(),
            forall|j: int| 0 <= j < k ==> names@[j]@ != name@,
    {
        if names[k].eq(name) {
            return Some(k);
        }
    }
    None
}

/// The first position in the pile holding a card of the given identity.
pub fn find_card_with_id(pile: &Vec<u8>, id: u8) -> (r: Option<usize>)
    ensures
        (match r {
            Some(j) => is_id_index(pile@, id, j as int),
            None => !pile_has_id(pile@, id),
        }),
{
    let n = pile.len();
    for k in 0..n
        invariant
            n == pile@.len(),
            forall|t: int| 0 <= t < k ==> card_id(pile@[t]) != id,
    {
        if crate::card::solver_card_to_id(&pile[k]) == id {
            return Some(k);
        }
    }
    None
}

/// How a board move corresponds to a pile/move-model move: the pile
/// names resolve (first match) to the move's indices, the instruction
/// and reveal record carry over, and the named card resolves to the
/// first card of that identity in the pile that cards leave.
pub open spec fn translated(
    names: Seq<String>,
    piles: Seq<Seq<u8>>,
    m: Move,
    undo: bool,
    sm: crate::solver::Move,
) -> bool {
    &&& is_name_index(names, m.origin_stack@, sm.origin_stack as int)
    &&& is_name_index(names, m.destination_stack@, sm.destination_stack as int)
    &&& sm.instruction == m.instruction
    &&& sm.flip_index == m.flip_index
    &&& (crate::solver::effective_origin(sm, undo) as int) < piles.len()
    &&& exists|s: u8, r2: u8|
        s < 4 && r2 < 13 && m.card_name@ == #[trigger] base_name(s, r2) && (exists|j: int|
            #[trigger] is_id_index(
                piles[crate::solver::effective_origin(sm, undo) as int],
                (s * 13 + r2) as u8,
                j,
            ) && sm.card == piles[crate::solver::effective_origin(sm, undo) as int][j])
}


/// Two first name positions are the same position.
pub proof fn lemma_name_index_unique(names: Seq<String>, name: Seq<char>, i1: int, i2: int)
    requires
        is_name_index(names, name, i1),
        is_name_index(names, name, i2),
    ensures
        i1 == i2,
{
    if i1 < i2 {
        assert(names[i1]@ == name);
    } else if i2 < i1 {
        assert(names[i2]@ == name);
    }
}

/// Two first positions of one card identity are the same position.
pub proof fn lemma_id_index_unique(pile: Seq<u8>, id: u8, j1: int, j2: int)
    requires
        is_id_index(pile, id, j1),
        is_id_index(pile, id, j2),
    ensures
        j1 == j2,
{
    if j1 < j2 {
        assert(card_id(pile[j1]) == id);
    } else if j2 < j1 {
        assert(card_id(pile[j2]) == id);
    }
}

/// A board move resolves to at most one pile/move-model move: the pile
/// names, the card name and the first-match rules pin it down.
pub proof fn lemma_translated_unique(
    names: Seq<String>,
    piles: Seq<Seq<u8>>,
    m: Move,
    undo: bool,
    sm1: crate::solver::Move,
    sm2: crate::solver::Move,
)
    requires
        translated(names, piles, m, undo, sm1),
        translated(names, piles, m, undo, sm2),
    ensures
        sm1 == sm2,
{
    lemma_name_index_unique(
        names,
        m.origin_stack@,
        sm1.origin_stack as int,
        sm2.origin_stack as int,
    );
    lemma_name_index_unique(
        names,
        m.destination_stack@,
        sm1.destination_stack as int,
        sm2.destination_stack as int,
    );
    let eff = crate::solver::effective_origin(sm1, undo) as int;
    let (s1, r1): (u8, u8) = choose|s: u8, r2: u8|
        s < 4 && r2 < 13 && m.card_name@ == #[trigger] base_name(s, r2) && (exists|j: int|
            #[trigger] is_id_index(piles[eff], (s * 13 + r2) as u8, j) && sm1.card == piles[eff][j]);
    let (s2, r2): (u8, u8) = choose|s: u8, r2: u8|
        s < 4 && r2 < 13 && m.card_name@ == #[trigger] base_name(s, r2) && (exists|j: int|
            #[trigger] is_id_index(piles[eff], (s * 13 + r2) as u8, j) && sm2.card == piles[eff][j]);
    crate::names::lemma_base_name_injective(s1, r1, s2, r2);
    let j1 = choose|j: int|
        #[trigger] is_id_index(piles[eff], (s1 * 13 + r1) as u8, j) && sm1.card == piles[eff][j];
    let j2 = choose|j: int|
        #[trigger] is_id_index(piles[eff], (s1 * 13 + r1) as u8, j) && sm2.card == piles[eff][j];
    lemma_id_index_unique(piles[eff], (s1 * 13 + r1) as u8, j1, j2);
}

/// Whether the board move resolves against the named piles and the
/// resolved move applies (after re-hiding its recorded reveal, when
/// undoing): exactly when the session accepts it.
pub open spec fn board_move_applies(
    names: Seq<String>,
    piles: Seq<Seq<u8>>,
    m: Move,
    undo: bool,
) -> bool {
    exists|sm: crate::solver::Move|
        #[trigger] translated(names, piles, m, undo, sm) && (if undo {
            move_applies(hook_undo_spec(sm, piles), sm, true)
        } else {
            move_applies(piles, sm, false)
        })
}


/// A failed resolution refutes applicability: when the stacks or the
/// card cannot be found, no pile/move-model move fits the board move.
proof fn lemma_translate_err_refutes(
    names: Seq<String>,
    piles: Seq<Seq<u8>>,
    m: Move,
    undo: bool,
    e: SessionError,
)
    requires
        e == SessionError::UnknownStack || e == SessionError::UnknownCard,
        e == SessionError::UnknownStack ==> (!has_stack(names, m.origin_stack@) || !has_stack(
            names,
            m.destination_stack@,
        )),
        e == SessionError::UnknownCard ==> (!is_card_name(m.card_name@) || (exists|
            s: u8,
            r2: u8,
            oi: int,
            di: int,
        |
            #![trigger base_name(s, r2), is_name_index(names, m.origin_stack@, oi), is_name_index(names, m.destination_stack@, di)]
            {
                &&& s < 4 && r2 < 13
                &&& m.card_name@ == base_name(s, r2)
                &&& is_name_index(names, m.origin_stack@, oi)
                &&& is_name_index(names, m.destination_stack@, di)
                &&& !pile_has_id(
                    piles[if undo {
                        di
                    } else {
                        oi
                    }],
                    (s * 13 + r2) as u8,
                )
            })),
    ensures
        !board_move_applies(names, piles, m, undo),
{
    if board_move_applies(names, piles, m, undo) {
        let sm = choose|sm: crate::solver::Move|
            #[trigger] translated(names, piles, m, undo, sm) && (if undo {
                move_applies(hook_undo_spec(sm, piles), sm, true)
            } else {
                move_applies(piles, sm, false)
            });
        assert(has_stack(names, m.origin_stack@)) by {
            assert(names[sm.origin_stack as int]@ == m.origin_stack@);
        }
        assert(has_stack(names, m.destination_stack@)) by {
            assert(names[sm.destination_stack as int]@ == m.destination_stack@);
        }
        let eff = crate::solver::effective_origin(sm, undo) as int;
        let (s1, r1): (u8, u8) = choose|s: u8, r2: u8|
            s < 4 && r2 < 13 && m.card_name@ == #[trigger] base_name(s, r2) && (exists|j: int|
                #[trigger] is_id_index(piles[eff], (s * 13 + r2) as u8, j) && sm.card
                    == piles[eff][j]);
        assert(is_card_name(m.card_name@));
        if e == SessionError::UnknownCard {
            let (s0, r0, oi, di): (u8, u8, int, int) = choose|s: u8, r2: u8, oi: int, di: int|
                #![trigger base_name(s, r2), is_name_index(names, m.origin_stack@, oi), is_name_index(names, m.destination_stack@, di)]
                {
                    &&& s < 4 && r2 < 13
                    &&& m.card_name@ == base_name(s, r2)
                    &&& is_name_index(names, m.origin_stack@, oi)
                    &&& is_name_index(names, m.destination_stack@, di)
                    &&& !pile_has_id(
                        piles[if undo {
                            di
                        } else {
                            oi
                        }],
                        (s * 13 + r2) as u8,
                    )
                };
            crate::names::lemma_base_name_injective(s1, r1, s0, r0);
            lemma_name_index_unique(names, m.origin_stack@, sm.origin_stack as int, oi);
            lemma_name_index_unique(names, m.destination_stack@, sm.destination_stack as int, di);
            let j = choose|j: int|
                #[trigger] is_id_index(piles[eff], (s1 * 13 + r1) as u8, j) && sm.card
                    == piles[eff][j];
            assert(pile_has_id(piles[eff], (s1 * 13 + r1) as u8)) by {
                assert(card_id(piles[eff][j]) == (s1 * 13 + r1) as u8);
            }
            assert(false);
        } else {
            assert(false);
        }
    }
}

impl GameSession {
    /// Resolves a board move against the session's named piles: pile
    /// names to indices, the card name to the first card of that
    /// identity in the pile that cards would leave (the destination,
    /// when undoing).
    pub fn translate_move(&self, m: &Move, undo: bool) -> (r: Result<
        crate::solver::Move,
        SessionError,
    >)
        requires
            self.stack_names@.len() == self.piles@.len(),
        ensures
            (match r {
                Ok(sm) => translated(self.stack_names@, piles_view(self.piles), *m, undo, sm),
                Err(e) => {
                    &&& (e == SessionError::UnknownStack <==> (!has_stack(
                        self.stack_names@,
                        m.origin_stack@,
                    ) || !has_stack(self.stack_names@, m.destination_stack@)))
                    &&& (e == SessionError::UnknownCard ==> (!is_card_name(m.card_name@) || (
                    exists|s: u8, r2: u8, oi: int, di: int|
                        #![trigger base_name(s, r2), is_name_index(self.stack_names@, m.origin_stack@, oi), is_name_index(self.stack_names@, m.destination_stack@, di)]
                        {
                            &&& s < 4 && r2 < 13
                            &&& m.card_name@ == base_name(s, r2)
                            &&& is_name_index(self.stack_names@, m.origin_stack@, oi)
                            &&& is_name_index(self.stack_names@, m.destination_stack@, di)
                            &&& !pile_has_id(
                                piles_view(self.piles)[if undo {
                                    di
                                } else {
                                    oi
                                }],
                                (s * 13 + r2) as u8,
                            )
                        })))
                    &&& (e is BadMove ==> false)
                },
            }),
    {
        let oi = match find_stack(&self.stack_names, &m.origin_stack) {
            Some(i) => i,
            None => {
                return Err(SessionError::UnknownStack);
            },
        };
        let di = match find_stack(&self.stack_names, &m.destination_stack) {
            Some(i) => i,
            None => {
                return Err(SessionError::UnknownStack);
            },
        };
        let base = match try_card_name(m.card_name.as_str(), false) {
            Some(c) => c,
            None => {
                return Err(SessionError::UnknownCard);
            },
        };
        let eff = if undo {
            di
        } else {
            oi
        };
        let j = match find_card_with_id(&self.piles[eff], base) {
            Some(j) => j,
            None => {
                proof {
                    assert(piles_view(self.piles)[eff as int] == self.piles@[eff as int]@);
                }
                return Err(SessionError::UnknownCard);
            },
        };
        let byte = self.piles[eff][j];
        let sm = crate::solver::Move {
            origin_stack: oi,
            card: byte,
            destination_stack: di,
            instruction: m.instruction,
            flip_index: m.flip_index,
        };
        proof {
            assert(piles_view(self.piles)[eff as int] == self.piles@[eff as int]@);
            assert(crate::solver::effective_origin(sm, undo) == eff);
        }
        Ok(sm)
    }

    /// Applies a board move to the authoritative piles: the translated
    /// move is performed, the game hook runs (recording any reveal in
    /// the move's `flip_index`), and a `Flip` move's card name is
    /// updated to the card the reverse direction must find. On any
    /// error nothing is changed.
    pub fn perform_move(&mut self, move_: &mut Move) -> (r: Result<(), SessionError>)
        requires
            old(self).stack_names@.len() == old(self).piles@.len(),
        ensures
            *final(self) == (GameSession { piles: final(self).piles, ..*old(self) }),
            final(self).piles@.len() == old(self).piles@.len(),
            r is Ok <==> board_move_applies(
                old(self).stack_names@,
                piles_view(old(self).piles),
                *old(move_),
                false,
            ),
            (match r {
                Ok(()) => exists|sm: crate::solver::Move|
                    {
                        &&& #[trigger] translated(
                            old(self).stack_names@,
                            piles_view(old(self).piles),
                            *old(move_),
                            false,
                            sm,
                        )
                        &&& expand_spec(old(self).game, piles_view(old(self).piles), sm) is Some
                        &&& piles_view(final(self).piles) == expand_spec(
                            old(self).game,
                            piles_view(old(self).piles),
                            sm,
                        ).unwrap().1
                        &&& final(move_).flip_index == expand_spec(
                            old(self).game,
                            piles_view(old(self).piles),
                            sm,
                        ).unwrap().0.flip_index
                        &&& final(move_).origin_stack == old(move_).origin_stack
                        &&& final(move_).destination_stack == old(move_).destination_stack
                        &&& final(move_).instruction == old(move_).instruction
                        &&& (old(move_).instruction is Flip ==> final(move_).card_name@
                            == card_display_name(
                            card_after_move(piles_view(old(self).piles), sm, false),
                        ))
                        &&& (old(move_).instruction is Plain ==> final(move_).card_name == old(move_).card_name)
                    },
                Err(e) => piles_view(final(self).piles) == piles_view(old(self).piles)
                    && *final(move_) == *old(move_),
            }),
    {
        let ghost pre = piles_view(self.piles);
        let mut sm = match self.translate_move(move_, false) {
            Ok(sm) => sm,
            Err(e) => {
                proof {
                    lemma_translate_err_refutes(self.stack_names@, pre, *move_, false, e);
                }
                return Err(e);
            },
        };
        let ghost sm0 = sm;
        proof {
            assert(board_move_applies(self.stack_names@, pre, *move_, false) ==> move_applies(
                pre,
                sm0,
                false,
            )) by {
                if board_move_applies(self.stack_names@, pre, *move_, false) {
                    let sm2 = choose|sm2: crate::solver::Move|
                        #[trigger] translated(self.stack_names@, pre, *move_, false, sm2)
                            && move_applies(pre, sm2, false);
                    lemma_translated_unique(self.stack_names@, pre, *move_, false, sm2, sm0);
                }
            }
        }
        match perform_state_move(&mut sm, &mut self.piles, false) {
            Ok(()) => {},
            Err(e) => {
                return Err(SessionError::BadMove(e));
            },
        }
        proof {
            assert(board_move_applies(old(self).stack_names@, pre, *old(move_), false)) by {
                assert(translated(old(self).stack_names@, pre, *old(move_), false, sm0)
                    && move_applies(pre, sm0, false));
            }
        }
        let ghost s1 = state_after_move(pre, sm0, false);
        let ghost m1 = (crate::solver::Move { card: card_after_move(pre, sm0, false), ..sm0 });
        game_on_move(self.game, &mut sm, &mut self.piles, false);
        if matches!(move_.instruction, MoveInstruction::Flip) {
            move_.card_name = solver_card_to_name(sm.card);
        }
        move_.flip_index = sm.flip_index;
        proof {
            assert(expand_spec(self.game, pre, sm0) is Some);
            assert(piles_view(self.piles) == expand_spec(self.game, pre, sm0).unwrap().1);
            assert(sm.flip_index == expand_spec(self.game, pre, sm0).unwrap().0.flip_index);
            assert(piles_view(self.piles).len() == pre.len()) by {
                crate::games::lemma_hook_round_trip(self.game, m1, s1);
            }
        }
        Ok(())
    }

    /// Exactly reverses an applied board move: the recorded reveal is
    /// re-hidden, then the cards move back. On any error nothing is
    /// changed.
    pub fn unperform_move(&mut self, move_: &Move) -> (r: Result<(), SessionError>)
        requires
            old(self).stack_names@.len() == old(self).piles@.len(),
        ensures
            *final(self) == (GameSession { piles: final(self).piles, ..*old(self) }),
            final(self).piles@.len() == old(self).piles@.len(),
            r is Ok <==> board_move_applies(
                old(self).stack_names@,
                piles_view(old(self).piles),
                *move_,
                true,
            ),
            (match r {
                Ok(()) => exists|sm: crate::solver::Move|
                    {
                        &&& #[trigger] translated(
                            old(self).stack_names@,
                            piles_view(old(self).piles),
                            *move_,
                            true,
                            sm,
                        )
                        &&& move_applies(hook_undo_spec(sm, piles_view(old(self).piles)), sm, true)
                        &&& piles_view(final(self).piles) == state_after_move(
                            hook_undo_spec(sm, piles_view(old(self).piles)),
                            sm,
                            true,
                        )
                    },
                Err(e) => piles_view(final(self).piles) == piles_view(old(self).piles),
            }),
    {
        let ghost pre = piles_view(self.piles);
        let mut sm = match self.translate_move(move_, true) {
            Ok(sm) => sm,
            Err(e) => {
                proof {
                    lemma_translate_err_refutes(self.stack_names@, pre, *move_, true, e);
                }
                return Err(e);
            },
        };
        proof {
            assert(board_move_applies(self.stack_names@, pre, *move_, true) ==> move_applies(
                hook_undo_spec(sm, pre),
                sm,
                true,
            )) by {
                if board_move_applies(self.stack_names@, pre, *move_, true) {
                    let sm2 = choose|sm2: crate::solver::Move|
                        #[trigger] translated(self.stack_names@, pre, *move_, true, sm2)
                            && move_applies(hook_undo_spec(sm2, pre), sm2, true);
                    lemma_translated_unique(self.stack_names@, pre, *move_, true, sm2, sm);
                }
            }
        }
        let ghost sm0 = sm;
        game_on_move(self.game, &mut sm, &mut self.piles, true);
        let ghost mid = hook_undo_spec(sm0, pre);
        match perform_state_move(&mut sm, &mut self.piles, true) {
            Ok(()) => {
                proof {
                    assert(mid.len() == pre.len()) by {
                        lemma_hook_undo_len(sm0, pre);
                    }
                    assert(piles_view(self.piles).len() == mid.len());
                    assert(board_move_applies(old(self).stack_names@, pre, *move_, true)) by {
                        assert(translated(old(self).stack_names@, pre, *move_, true, sm0)
                            && move_applies(hook_undo_spec(sm0, pre), sm0, true));
                    }
                }
                Ok(())
            },
            Err(e) => {
                // The move did not apply: re-hide nothing, re-reveal what the
                // hook reversal flipped, leaving the piles as they were.
                if let Some(i) = sm.flip_index {
                    if i < self.piles.len() && self.piles[i].len() > 0 {
                        crate::games::flip_pile_top(&mut self.piles, i);
                    }
                }
                proof {
                    lemma_hook_undo_involution(sm0, pre);
                    assert(piles_view(self.piles) == pre);
                }
                Err(SessionError::BadMove(e))
            },
        }
    }
}

/// The verdict on one completed background re-solve.
#[derive(Clone, Copy, Debug, PartialEq, Eq, Structural)]
pub enum ResolveVerdict {
    /// The result belongs to an older layout (the player has moved on);
    /// it is discarded without touching the session.
    Stale,
    /// The solution was accepted and cached.
    Accepted,
    /// A failure was recorded, but re-solves for later moves are still
    /// outstanding; nothing is asked of the player yet.
    Noted,
    /// Every outstanding re-solve has failed: offer to roll back to the
    /// last known-solvable move.
    PromptUnsolvable { rollback_to: usize },
    /// The player asked not to be told; play continues unverified.
    KeepPlaying,
}

impl GameSession {
    /// Records an applied move: the redo history is invalidated, the
    /// move joins the history, and the caller learns whether the game is
    /// won, whether the cached solution covered the move (its head is
    /// then consumed), or whether a re-solve must be started.
    pub fn add_to_history(&mut self, move_: Move) -> (r: AfterMove)
        requires
            game_piles_ok(old(self).game, piles_view(old(self).piles)),
        ensures
            final(self).history@ == old(self).history@.push(move_),
            final(self).undo_history@.len() == 0,
            *final(self) == (GameSession {
                history: final(self).history,
                undo_history: final(self).undo_history,
                solution_moves: final(self).solution_moves,
                ..*old(self)
            }),
            (r == AfterMove::Won <==> is_won_spec(old(self).game, piles_view(old(self).piles))),
            (r == AfterMove::Won ==> final(self).solution_moves == old(self).solution_moves),
            (r == AfterMove::CoveredBySolution <==> (!is_won_spec(
                old(self).game,
                piles_view(old(self).piles),
            ) && old(self).solution_moves@.len() > 0 && move_eq(
                old(self).solution_moves@[0],
                move_,
            ))),
            (r == AfterMove::CoveredBySolution ==> final(self).solution_moves@ == old(
                self,
            ).solution_moves@.subrange(1, old(self).solution_moves@.len() as int)),
            (r == AfterMove::ResolveNeeded <==> (!is_won_spec(
                old(self).game,
                piles_view(old(self).piles),
            ) && !(old(self).solution_moves@.len() > 0 && move_eq(
                old(self).solution_moves@[0],
                move_,
            )))),
            (r == AfterMove::ResolveNeeded ==> final(self).solution_moves == old(self).solution_moves),
    {
        self.undo_history = Vec::new();
        let matches_hint = if self.solution_moves.len() > 0 {
            moves_equal(&self.solution_moves[0], &move_)
        } else {
            false
        };
        self.history.push(move_);
        if game_is_won(self.game, &self.piles) {
            return AfterMove::Won;
        }
        if matches_hint {
            let ghost pre = self.solution_moves@;
            let _head = self.solution_moves.remove(0);
            proof {
                assert(self.solution_moves@ =~= pre.subrange(1, pre.len() as int));
            }
            return AfterMove::CoveredBySolution;
        }
        AfterMove::ResolveNeeded
    }

    /// One undo step: the most recent move's reveal is re-hidden, its
    /// cards move back, and it leaves the history for the redo stack.
    /// The cached solution is not touched. Refused exactly when the
    /// popped move no longer fits the board.
    fn undo_step(&mut self) -> (r: Result<Option<Move>, SessionError>)
        requires
            old(self).stack_names@.len() == old(self).piles@.len(),
        ensures
            final(self).stack_names == old(self).stack_names,
            final(self).piles@.len() == old(self).piles@.len(),
            *final(self) == (GameSession {
                piles: final(self).piles,
                history: final(self).history,
                undo_history: final(self).undo_history,
                ..*old(self)
            }),
            r is Err <==> (old(self).history@.len() > 0 && !board_move_applies(
                old(self).stack_names@,
                piles_view(old(self).piles),
                old(self).history@.last(),
                true,
            )),
            (match r {
                Ok(popped) => (match popped {
                    Some(m) => {
                        &&& old(self).history@.len() > 0
                        &&& m == old(self).history@.last()
                        &&& final(self).history@ == old(self).history@.drop_last()
                        &&& final(self).undo_history@ == old(self).undo_history@.push(m)
                        &&& exists|sm: crate::solver::Move|
                            {
                                &&& #[trigger] translated(
                                    old(self).stack_names@,
                                    piles_view(old(self).piles),
                                    m,
                                    true,
                                    sm,
                                )
                                &&& piles_view(final(self).piles) == state_after_move(
                                    hook_undo_spec(sm, piles_view(old(self).piles)),
                                    sm,
                                    true,
                                )
                            }
                    },
                    None => old(self).history@.len() == 0 && *final(self) == *old(self),
                }),
                Err(e) => final(self).history == old(self).history && final(self).undo_history
                    == old(self).undo_history && piles_view(final(self).piles) == piles_view(
                    old(self).piles,
                ),
            }),
    {
        if self.history.len() == 0 {
            return Ok(None);
        }
        let m = clone_move(&self.history[self.history.len() - 1]);
        match self.unperform_move(&m) {
            Ok(()) => {},
            Err(e) => {
                return Err(e);
            },
        }
        let _popped = self.history.pop();
        self.undo_history.push(clone_move(&m));
        Ok(Some(m))
    }

    /// Takes back the most recent move, if there is one: its reveal is
    /// re-hidden, the cards move back, the move leaves the history for
    /// the redo stack, and it is prepended to the cached solution (which
    /// stays valid, since undoing returns to a layout it solved).
    /// Refused exactly when the popped move no longer fits the board.
    pub fn undo_last_move(&mut self) -> (r: Result<Option<Move>, SessionError>)
        requires
            old(self).stack_names@.len() == old(self).piles@.len(),
        ensures
            final(self).stack_names == old(self).stack_names,
            final(self).piles@.len() == old(self).piles@.len(),
            *final(self) == (GameSession {
                piles: final(self).piles,
                history: final(self).history,
                undo_history: final(self).undo_history,
                solution_moves: final(self).solution_moves,
                ..*old(self)
            }),
            r is Err <==> (old(self).history@.len() > 0 && !board_move_applies(
                old(self).stack_names@,
                piles_view(old(self).piles),
                old(self).history@.last(),
                true,
            )),
            (match r {
                Ok(popped) => (match popped {
                    Some(m) => {
                        &&& old(self).history@.len() > 0
                        &&& m == old(self).history@.last()
                        &&& final(self).history@ == old(self).history@.drop_last()
                        &&& final(self).undo_history@ == old(self).undo_history@.push(m)
                        &&& final(self).solution_moves@ == (if old(self).solution_moves@.len()
                            > 0 {
                            seq![m] + old(self).solution_moves@
                        } else {
                            old(self).solution_moves@
                        })
                        &&& exists|sm: crate::solver::Move|
                            {
                                &&& #[trigger] translated(
                                    old(self).stack_names@,
                                    piles_view(old(self).piles),
                                    m,
                                    true,
                                    sm,
                                )
                                &&& piles_view(final(self).piles) == state_after_move(
                                    hook_undo_spec(sm, piles_view(old(self).piles)),
                                    sm,
                                    true,
                                )
                            }
                    },
                    None => old(self).history@.len() == 0 && *final(self) == *old(self),
                }),
                Err(e) => final(self).history == old(self).history && final(self).undo_history
                    == old(self).undo_history && final(self).solution_moves == old(
                    self,
                ).solution_moves && piles_view(final(self).piles) == piles_view(old(self).piles),
            }),
    {
        let popped = match self.undo_step() {
            Ok(popped) => popped,
            Err(e) => {
                return Err(e);
            },
        };
        match popped {
            Some(m) => {
                if self.solution_moves.len() > 0 {
                    let ghost pre = self.solution_moves@;
                    self.solution_moves.insert(0, clone_move(&m));
                    proof {
                        assert(self.solution_moves@ =~= seq![m] + pre);
                    }
                }
                Ok(Some(m))
            },
            None => Ok(None),
        }
    }

    /// Rolls the history back until at most `last_index` moves remain,
    /// re-hiding reveals and moving cards back step by step; the cached
    /// solution is not touched. Never refused when the history is
    /// already short enough.
    pub fn undo_many(&mut self, last_index: usize) -> (r: Result<(), SessionError>)
        requires
            old(self).stack_names@.len() == old(self).piles@.len(),
        ensures
            final(self).stack_names == old(self).stack_names,
            final(self).piles@.len() == old(self).piles@.len(),
            *final(self) == (GameSession {
                piles: final(self).piles,
                history: final(self).history,
                undo_history: final(self).undo_history,
                ..*old(self)
            }),
            old(self).history@.len() <= last_index ==> r is Ok && *final(self) == *old(self),
            r is Ok ==> final(self).history@.len() == (if old(self).history@.len() >= last_index {
                last_index as int
            } else {
                old(self).history@.len() as int
            }),
    {
        while self.history.len() > last_index
            invariant
                self.stack_names@.len() == self.piles@.len(),
                self.stack_names == old(self).stack_names,
                self.piles@.len() == old(self).piles@.len(),
                *self == (GameSession {
                    piles: self.piles,
                    history: self.history,
                    undo_history: self.undo_history,
                    ..*old(self)
                }),
                old(self).history@.len() > last_index || *self == *old(self),
                old(self).history@.len() >= last_index ==> last_index <= self.history@.len(),
                old(self).history@.len() < last_index ==> self.history@.len() == old(
                    self,
                ).history@.len(),
            decreases self.history@.len(),
        {
            match self.undo_step() {
                Ok(_) => {},
                Err(e) => {
                    return Err(e);
                },
            }
        }
        Ok(())
    }

    /// Replays the most recently undone move, if there is one: it is
    /// applied again exactly as a fresh move would be (relocation, then
    /// the reveal hook), rejoins the history, and either consumes the
    /// cached solution's matching head or asks for a re-solve. Refused
    /// exactly when the undone move no longer fits the board.
    pub fn redo_first_move(&mut self) -> (r: Result<Option<AfterMove>, SessionError>)
        requires
            old(self).stack_names@.len() == old(self).piles@.len(),
        ensures
            final(self).stack_names == old(self).stack_names,
            final(self).piles@.len() == old(self).piles@.len(),
            *final(self) == (GameSession {
                piles: final(self).piles,
                history: final(self).history,
                undo_history: final(self).undo_history,
                solution_moves: final(self).solution_moves,
                ..*old(self)
            }),
            r is Err <==> (old(self).undo_history@.len() > 0 && !board_move_applies(
                old(self).stack_names@,
                piles_view(old(self).piles),
                old(self).undo_history@.last(),
                false,
            )),
            (match r {
                Ok(outcome) => (match outcome {
                    Some(after) => {
                        &&& old(self).undo_history@.len() > 0
                        &&& final(self).undo_history@ == old(self).undo_history@.drop_last()
                        &&& final(self).history@.len() == old(self).history@.len() + 1
                        &&& final(self).history@.subrange(0, old(self).history@.len() as int)
                            == old(self).history@
                        &&& ({
                            let m0 = old(self).undo_history@.last();
                            let replayed = final(self).history@.last();
                            &&& replayed.origin_stack == m0.origin_stack
                            &&& replayed.destination_stack == m0.destination_stack
                            &&& replayed.instruction == m0.instruction
                            &&& (m0.instruction is Plain ==> replayed.card_name == m0.card_name)
                            &&& exists|sm: crate::solver::Move|
                                {
                                    &&& #[trigger] translated(
                                        old(self).stack_names@,
                                        piles_view(old(self).piles),
                                        m0,
                                        false,
                                        sm,
                                    )
                                    &&& expand_spec(
                                        old(self).game,
                                        piles_view(old(self).piles),
                                        sm,
                                    ) is Some
                                    &&& piles_view(final(self).piles) == expand_spec(
                                        old(self).game,
                                        piles_view(old(self).piles),
                                        sm,
                                    ).unwrap().1
                                    &&& replayed.flip_index == expand_spec(
                                        old(self).game,
                                        piles_view(old(self).piles),
                                        sm,
                                    ).unwrap().0.flip_index
                                    &&& (m0.instruction is Flip ==> replayed.card_name@
                                        == card_display_name(
                                        card_after_move(piles_view(old(self).piles), sm, false),
                                    ))
                                }
                        })
                        &&& after != AfterMove::Won
                        &&& (after == AfterMove::ResolveNeeded <==> !(old(
                            self,
                        ).solution_moves@.len() > 0 && move_eq(
                            old(self).solution_moves@[0],
                            final(self).history@.last(),
                        )))
                        &&& (after == AfterMove::ResolveNeeded ==> final(self).solution_moves
                            == old(self).solution_moves)
                        &&& (after == AfterMove::CoveredBySolution ==> old(
                            self,
                        ).solution_moves@.len() > 0 && final(self).solution_moves@ == old(
                            self,
                        ).solution_moves@.subrange(1, old(self).solution_moves@.len() as int))
                    },
                    None => old(self).undo_history@.len() == 0 && *final(self) == *old(self),
                }),
                Err(e) => final(self).history == old(self).history && final(self).undo_history
                    == old(self).undo_history && final(self).solution_moves == old(
                    self,
                ).solution_moves && piles_view(final(self).piles) == piles_view(old(self).piles),
            }),
    {
        if self.undo_history.len() == 0 {
            return Ok(None);
        }
        let mut m = clone_move(&self.undo_history[self.undo_history.len() - 1]);
        match self.perform_move(&mut m) {
            Ok(()) => {},
            Err(e) => {
                return Err(e);
            },
        }
        let _popped = self.undo_history.pop();
        let matches_hint = if self.solution_moves.len() > 0 {
            moves_equal(&self.solution_moves[0], &m)
        } else {
            false
        };
        self.history.push(m);
        proof {
            assert(self.history@.subrange(0, old(self).history@.len() as int) =~= old(
                self,
            ).history@);
        }
        if matches_hint {
            let ghost pre = self.solution_moves@;
            let _head = self.solution_moves.remove(0);
            proof {
                assert(self.solution_moves@ =~= pre.subrange(1, pre.len() as int));
            }
            return Ok(Some(AfterMove::CoveredBySolution));
        }
        Ok(Some(AfterMove::ResolveNeeded))
    }

    /// Judges a completed background re-solve that was started when the
    /// history held `move_index` moves. Only a result for the current
    /// layout is ever acted on: a result for an older layout is
    /// discarded unread. A solution is cached; a failure is remembered
    /// (unless the attempt was cancelled), and once the failure belongs
    /// to the current layout the player is asked to roll back to the
    /// last known-solvable move — or play on, if they already declined.
    pub fn resolve_completed(
        &mut self,
        move_index: usize,
        result: Option<Vec<Move>>,
        cancelled: bool,
    ) -> (r: ResolveVerdict)
        ensures
            *final(self) == (GameSession {
                solution_moves: final(self).solution_moves,
                notify_unsolvable: final(self).notify_unsolvable,
                first_unsolvable: final(self).first_unsolvable,
                first_unsolvable_solution: final(self).first_unsolvable_solution,
                ..*old(self)
            }),
            final(self).solution_moves != old(self).solution_moves ==> (result is Some
                && move_index >= old(self).history@.len()),
            (match result {
                Some(h) => (if move_index < old(self).history@.len() {
                    r == ResolveVerdict::Stale && *final(self) == *old(self)
                } else {
                    r == ResolveVerdict::Accepted && final(self).solution_moves == h && final(self).first_unsolvable is None && final(self).notify_unsolvable == true
                }),
                None => {
                    &&& final(self).solution_moves == old(self).solution_moves
                    &&& (r is PromptUnsolvable ==> old(self).notify_unsolvable && move_index == old(self).history@.len())
                    &&& (r == ResolveVerdict::KeepPlaying ==> !old(self).notify_unsolvable
                        && move_index == old(self).history@.len())
                    &&& (r == ResolveVerdict::Noted ==> move_index != old(self).history@.len())
                    &&& (cancelled && old(self).first_unsolvable is None && move_index != old(
                        self,
                    ).history@.len() ==> final(self).first_unsolvable is None && !(r
                        is PromptUnsolvable) && r != ResolveVerdict::KeepPlaying)
                },
            }),
    {
        match result {
            Some(h) => {
                if move_index < self.history.len() {
                    return ResolveVerdict::Stale;
                }
                self.solution_moves = h;
                self.notify_unsolvable = true;
                self.first_unsolvable = None;
                ResolveVerdict::Accepted
            },
            None => {
                let record = match self.first_unsolvable {
                    Some(fu) => move_index < fu,
                    None => true,
                };
                if record && !cancelled {
                    self.first_unsolvable = Some(move_index);
                    let mut saved: Vec<Move> = Vec::new();
                    let n = self.solution_moves.len();
                    for k in 0..n
                        invariant
                            n == self.solution_moves@.len(),
                            saved@.len() == k,
                    {
                        saved.push(clone_move(&self.solution_moves[k]));
                    }
                    self.first_unsolvable_solution = saved;
                }
                if move_index == self.history.len() {
                    let fu = match self.first_unsolvable {
                        Some(fu) => fu,
                        None => move_index,
                    };
                    self.first_unsolvable = None;
                    if self.notify_unsolvable {
                        ResolveVerdict::PromptUnsolvable {
                            rollback_to: if fu > 0 {
                                fu - 1
                            } else {
                                0
                            },
                        }
                    } else {
                        ResolveVerdict::KeepPlaying
                    }
                } else {
                    ResolveVerdict::Noted
                }
            },
        }
    }

    /// Answers the unsolvable prompt by rolling back: the history is
    /// undone to the last known-solvable move and the solution that was
    /// still known there becomes the cached solution again.
    pub fn rollback_to_solvable(&mut self, rollback_to: usize) -> (r: Result<(), SessionError>)
        requires
            old(self).stack_names@.len() == old(self).piles@.len(),
        ensures
            final(self).stack_names == old(self).stack_names,
            old(self).history@.len() <= rollback_to ==> r is Ok,
            r is Ok ==> final(self).history@.len() == (if old(self).history@.len() >= rollback_to {
                rollback_to as int
            } else {
                old(self).history@.len() as int
            }),
            r is Ok ==> final(self).solution_moves@.len() == old(
                self,
            ).first_unsolvable_solution@.len(),
    {
        match self.undo_many(rollback_to) {
            Ok(()) => {},
            Err(e) => {
                return Err(e);
            },
        }
        let mut saved: Vec<Move> = Vec::new();
        let n = self.first_unsolvable_solution.len();
        for k in 0..n
            invariant
                n == self.first_unsolvable_solution@.len(),
                saved@.len() == k,
        {
            saved.push(clone_move(&self.first_unsolvable_solution[k]));
        }
        self.solution_moves = saved;
        Ok(())
    }

    /// Answers the unsolvable prompt by playing on: no further
    /// unsolvable prompts for the rest of the session.
    pub fn keep_playing_unverified(&mut self)
        ensures
            final(self).notify_unsolvable == false,
            *final(self) == (GameSession { notify_unsolvable: false, ..*old(self) }),
    {
        self.notify_unsolvable = false;
    }
}

/// A solver move under board names: pile indices become pile names and
/// the card byte becomes its display name.
pub open spec fn names_move(names: Seq<String>, sm: crate::solver::Move, m: Move) -> bool {
    &&& (sm.origin_stack as int) < names.len()
    &&& (sm.destination_stack as int) < names.len()
    &&& m.origin_stack@ == names[sm.origin_stack as int]@
    &&& m.destination_stack@ == names[sm.destination_stack as int]@
    &&& m.card_name@ == card_display_name(sm.card)
    &&& m.instruction == sm.instruction
    &&& m.flip_index == sm.flip_index
}

/// Translates a solver history into board moves under the given pile
/// names, refusing a history that points outside the board.
pub fn solution_to_moves(stack_names: &Vec<String>, solution: &Vec<crate::solver::Move>) -> (r:
    Result<Vec<Move>, SessionError>)
    ensures
        (match r {
            Ok(v) => {
                &&& v@.len() == solution@.len()
                &&& forall|i: int|
                    0 <= i < v@.len() ==> names_move(stack_names@, solution@[i], #[trigger] v@[i])
            },
            Err(e) => e == SessionError::UnknownStack && exists|i: int|
                #![trigger solution@[i]]
                0 <= i < solution@.len() && (solution@[i].origin_stack >= stack_names@.len()
                    || solution@[i].destination_stack >= stack_names@.len()),
        }),
{
    let mut v: Vec<Move> = Vec::new();
    let n = solution.len();
    for k in 0..n
        invariant
            n == solution@.len(),
            v@.len() == k,
            forall|i: int|
                0 <= i < k ==> names_move(stack_names@, solution@[i], #[trigger] v@[i]),
    {
        let sm = solution[k];
        if sm.origin_stack >= stack_names.len() || sm.destination_stack >= stack_names.len() {
            proof {
                assert(solution@[k as int].origin_stack >= stack_names@.len()
                    || solution@[k as int].destination_stack >= stack_names@.len());
            }
            return Err(SessionError::UnknownStack);
        }
        let m = Move {
            origin_stack: stack_names[sm.origin_stack].clone(),
            card_name: solver_card_to_name(sm.card),
            destination_stack: stack_names[sm.destination_stack].clone(),
            instruction: sm.instruction,
            flip_index: sm.flip_index,
        };
        v.push(m);
    }
    Ok(v)
}

/// One full re-solve from a board snapshot: clears the cooperative
/// cancellation flag (a stale cancellation never aborts a fresh
/// attempt), runs the bounded search and, if it finds a solution,
/// renders it under the board's pile names. `None` means no solution
/// was found — the frontier or the node budget ran out, or the attempt
/// was cancelled; a returned solution is never empty and replays, in
/// the pile/move model, from the snapshot to a won layout.
pub fn re_solve(
    game: GameKind,
    stack_names: &Vec<String>,
    game_state: &Vec<Vec<u8>>,
    should_stop: &core::sync::atomic::AtomicBool,
) -> (r: Result<Option<Vec<Move>>, SessionError>)
    requires
        game_piles_ok(game, piles_view(*game_state)),
        distinct_card_ids(piles_view(*game_state)),
    ensures
        (match r {
            Ok(Some(v)) => v@.len() >= 1 && exists|h: Seq<crate::solver::Move>|
                {
                    &&& #[trigger] replay_spec(game, piles_view(*game_state), h) is Some
                    &&& is_won_spec(
                        game,
                        replay_spec(game, piles_view(*game_state), h).unwrap(),
                    )
                    &&& v@.len() == h.len()
                    &&& forall|i: int|
                        0 <= i < h.len() ==> names_move(stack_names@, h[i], #[trigger] v@[i])
                },
            Ok(None) => true,
            Err(e) => e == SessionError::UnknownStack,
        }),
{
    crate::search::set_should_stop(should_stop, false);
    match crate::search::solve(game, game_state, should_stop) {
        crate::search::SolveOutcome::Solved(solution) => {
            let v = match solution_to_moves(stack_names, &solution) {
                Ok(v) => v,
                Err(e) => {
                    return Err(e);
                },
            };
            proof {
                let h = solution@;
                assert(replay_spec(game, piles_view(*game_state), h) is Some);
            }
            Ok(Some(v))
        },
        crate::search::SolveOutcome::OutOfBudget => Ok(None),
        crate::search::SolveOutcome::NoMoves => Ok(None),
        crate::search::SolveOutcome::Cancelled => Ok(None),
    }
}

/// Re-hiding never changes how many piles or cards there are.
proof fn lemma_hook_undo_len(sm: crate::solver::Move, piles: Seq<Seq<u8>>)
    ensures
        hook_undo_spec(sm, piles).len() == piles.len(),
        forall|p: int|
            0 <= p < piles.len() ==> (#[trigger] hook_undo_spec(sm, piles)[p]).len()
                == piles[p].len(),
{
    match sm.flip_index {
        Some(i) => {},
        None => {},
    }
}

/// Flipping the same top card again restores the piles the hook
/// reversal changed.
proof fn lemma_hook_undo_involution(sm: crate::solver::Move, piles: Seq<Seq<u8>>)
    ensures
        (match sm.flip_index {
            Some(i) => if (i as int) < piles.len() && piles[i as int].len() > 0 {
                crate::games::flip_top(hook_undo_spec(sm, piles), i as int) == piles
            } else {
                hook_undo_spec(sm, piles) == piles
            },
            None => hook_undo_spec(sm, piles) == piles,
        }),
{
    match sm.flip_index {
        Some(i) => {
            if (i as int) < piles.len() && piles[i as int].len() > 0 {
                let mid = hook_undo_spec(sm, piles);
                crate::card::lemma_flip_involution(piles[i as int].last());
                assert(crate::games::flip_top(mid, i as int)[i as int] =~= piles[i as int]);
                assert(crate::games::flip_top(mid, i as int) =~= piles);
            }
        },
        None => {},
    }
}

} // verus!
