//! The search driver: a `State` carrying the live piles plus the search
//! bookkeeping (the set of seen canonical states, the node tree and the
//! priority buckets), and the `try_move` protocol that every move
//! generator files candidates through.

use vstd::prelude::*;
use std::collections::VecDeque;
use core::sync::atomic::{AtomicBool, Ordering};
use indexmap::IndexSet;
use crate::solver::{
    Move, SolverError, piles_view, distinct_card_ids, move_applies, state_after_move,
    card_after_move, perform_state_move, clone_piles, lemma_move_undo_symmetry,
    lemma_move_preserves_distinct,
};
use crate::games::{
    GameKind, NUM_BUCKETS, game_piles_ok, game_on_move, game_priority, game_priority_spec,
    game_is_won, is_won_spec, hook_apply_spec, expand_spec, replay_spec, lemma_replay_push,
    lemma_hook_round_trip, lemma_hook_preserves_distinct, lemma_expand_ignores_flip_index,
    one_foundation_generate,
};
use crate::dedup::{index_set_elems, state_set_new, state_set_insert, state_set_len,
    state_set_get_index};

verus! {

/// The expansion budget of one solve attempt: how many nodes the search
/// may take off the frontier before it gives up.
pub const NODE_BUDGET: usize = 15000;

/// How often the search polls the cooperative cancellation flag, in
/// expansions.
pub const POLL_INTERVAL: usize = 200;


/// The stored states only ever grow: `pre` is a prefix of `post`.
pub open spec fn elems_extended(pre: Seq<Seq<Seq<u8>>>, post: Seq<Seq<Seq<u8>>>) -> bool {
    &&& pre.len() <= post.len()
    &&& forall|k: int| 0 <= k < pre.len() ==> post[k] == pre[k]
}

/// A state stored before an extension is still stored after it.
pub proof fn lemma_extended_contains(
    pre: Seq<Seq<Seq<u8>>>,
    post: Seq<Seq<Seq<u8>>>,
    x: Seq<Seq<u8>>,
)
    requires
        elems_extended(pre, post),
        pre.contains(x),
    ensures
        post.contains(x),
{
    let i = choose|i: int| 0 <= i < pre.len() && pre[i] == x;
    assert(post[i] == x);
}

/// A visited search node: the move that produced it, the node it was
/// expanded from, and the position of its canonical state among the
/// seen states. Immutable once created; parent links form a tree whose
/// root-to-node paths are move histories.
#[derive(Clone, Copy, Debug, PartialEq)]
pub struct Node {
    pub parent: Option<usize>,
    pub move_option: Move,
    pub state_key: usize,
}

/// One search attempt's state: the live piles (mutated destructively
/// and restored by `try_move`), the deduplication set of canonical
/// states, the node tree, and the FIFO priority buckets. Constructed
/// fresh per solve attempt and discarded at its end.
pub struct State {
    /// Which game's rules drive hooks, priorities and generation.
    pub game: GameKind,
    /// The live pile layout.
    pub game_state: Vec<Vec<u8>>,
    /// Every canonical state seen so far, each exactly once.
    pub states: IndexSet<Vec<Vec<u8>>>,
    /// One node per seen state, in the same order.
    pub nodes: Vec<Node>,
    /// FIFO buckets of node indices, indexed by priority (0 = least
    /// promising).
    pub queues: Vec<VecDeque<usize>>,
    /// The bucket the search is currently expanding.
    pub q_index: usize,
    /// The node whose state the live piles show; fresh nodes attach to it.
    pub parent_node: Option<usize>,
    /// The layout the search started from.
    pub initial: Ghost<Seq<Seq<u8>>>,
}

impl State {
    /// The canonical states seen so far, in insertion order.
    pub open spec fn elems(self) -> Seq<Seq<Seq<u8>>> {
        index_set_elems(self.states)
    }

    /// The live pile layout.
    pub open spec fn piles(self) -> Seq<Seq<u8>> {
        piles_view(self.game_state)
    }

    /// Whether node `k`'s index sits in some priority bucket, waiting to
    /// be expanded.
    pub open spec fn queued(self, k: int) -> bool {
        exists|qi: int, t: int|
            0 <= qi < self.queues@.len() && 0 <= t < self.queues@[qi]@.len()
                && self.queues@[qi]@[t] == k
    }

    /// The canonical state of the current parent node (the initial
    /// layout when no node has been expanded yet).
    pub open spec fn prev_piles(self) -> Seq<Seq<u8>> {
        match self.parent_node {
            Some(p) => self.elems()[self.nodes@[p as int].state_key as int],
            None => self.initial@,
        }
    }

    /// The canonical state node `k` was expanded from.
    pub open spec fn prev_state_of(self, k: int) -> Seq<Seq<u8>> {
        match self.nodes@[k].parent {
            Some(p) => self.elems()[self.nodes@[p as int].state_key as int],
            None => self.initial@,
        }
    }

    /// Node `k` records a move that, expanded from its parent's
    /// canonical state, produces exactly the canonical state it points
    /// to.
    pub open spec fn node_ok(self, k: int) -> bool {
        expand_spec(self.game, self.prev_state_of(k), self.nodes@[k].move_option) == Some(
            (self.nodes@[k].move_option, self.elems()[self.nodes@[k].state_key as int]),
        )
    }

    /// Well-formedness of a search state: one bucket per priority; one
    /// node per seen state, keyed by its own position; parent links
    /// point backwards; every seen state has the game's pile count and
    /// distinct cards, and no two seen states are equal; queued indices
    /// name nodes; the live piles show the parent node's state; and
    /// every node records a faithful expansion.
    pub open spec fn wf(self) -> bool {
        &&& self.queues@.len() == NUM_BUCKETS
        &&& self.nodes@.len() == self.elems().len()
        &&& distinct_card_ids(self.initial@)
        &&& game_piles_ok(self.game, self.initial@)
        &&& self.piles() == self.prev_piles()
        &&& (match self.parent_node {
            Some(p) => (p as int) < self.nodes@.len(),
            None => true,
        })
        &&& forall|k: int|
            0 <= k < self.nodes@.len() ==> (#[trigger] self.nodes@[k]).state_key == k
        &&& forall|k: int|
            0 <= k < self.nodes@.len() ==> (match (#[trigger] self.nodes@[k]).parent {
                Some(p) => (p as int) < k,
                None => true,
            })
        &&& forall|k: int|
            0 <= k < self.elems().len() ==> (#[trigger] self.elems()[k]).len()
                == self.initial@.len()
        &&& forall|k: int|
            0 <= k < self.elems().len() ==> distinct_card_ids(#[trigger] self.elems()[k])
        &&& forall|k1: int, k2: int|
            #![trigger self.elems()[k1], self.elems()[k2]]
            0 <= k1 < k2 < self.elems().len() ==> self.elems()[k1] != self.elems()[k2]
        &&& forall|qi: int, t: int|
            0 <= qi < self.queues@.len() && 0 <= t < self.queues@[qi]@.len() ==> (
            #[trigger] self.queues@[qi]@[t]) < self.nodes@.len()
        &&& forall|k: int| 0 <= k < self.nodes@.len() ==> self.node_ok(k)
    }

    /// The live piles of a well-formed state have the game's layout and
    /// distinct cards.
    pub proof fn lemma_state_current(self)
        requires
            self.wf(),
        ensures
            distinct_card_ids(self.piles()),
            game_piles_ok(self.game, self.piles()),
            self.piles().len() == self.initial@.len(),
    {
        match self.parent_node {
            Some(p) => {
                assert(self.elems()[self.nodes@[p as int].state_key as int].len()
                    == self.initial@.len());
            },
            None => {},
        }
        match self.game {
            GameKind::Klondike => {},
            GameKind::OneFoundation { play_piles } => {},
        }
    }

    /// A fresh search state over the given layout: nothing seen, no
    /// nodes, every bucket empty.
    pub fn new(game: GameKind, game_state: Vec<Vec<u8>>) -> (r: State)
        requires
            game_piles_ok(game, piles_view(game_state)),
            distinct_card_ids(piles_view(game_state)),
        ensures
            r.wf(),
            r.game == game,
            r.piles() == piles_view(game_state),
            r.initial@ == piles_view(game_state),
            r.nodes@.len() == 0,
            r.parent_node is None,
            r.q_index == 0,
            forall|qi: int| 0 <= qi < NUM_BUCKETS ==> (#[trigger] r.queues@[qi])@.len() == 0,
    {
        let ghost pv = piles_view(game_state);
        let mut queues: Vec<VecDeque<usize>> = Vec::new();
        for _k in 0..NUM_BUCKETS
            invariant
                queues@.len() == _k,
                forall|j: int| 0 <= j < _k ==> (#[trigger] queues@[j])@.len() == 0,
        {
            queues.push(VecDeque::new());
        }
        State {
            game,
            game_state,
            states: state_set_new(),
            nodes: Vec::new(),
            queues,
            q_index: 0,
            parent_node: None,
            initial: Ghost(pv),
        }
    }

    /// A borrowed view of pile `n` of the live layout.
    pub fn get_stack(&self, n: usize) -> (r: &Vec<u8>)
        requires
            (n as int) < self.game_state@.len(),
        ensures
            r@ == self.piles()[n as int],
    {
        &self.game_state[n]
    }

    /// An owned copy of pile `n` of the live layout.
    pub fn get_stack_owned(&self, n: usize) -> (r: Vec<u8>)
        requires
            (n as int) < self.game_state@.len(),
        ensures
            r@ == self.piles()[n as int],
    {
        crate::solver::clone_pile(&self.game_state[n])
    }


    /// Files one applicable candidate move: afterwards the move's
    /// canonical expansion is among the stored states (newly added or
    /// already seen), at most one state was added and any added state is
    /// exactly that expansion, every new node waits in a bucket, and
    /// nothing else changed.
    pub fn file_candidate(&mut self, move_option: Move, rank: usize)
        requires
            old(self).wf(),
            rank >= 1,
            move_applies(old(self).piles(), move_option, false),
        ensures
            final(self).wf(),
            final(self).game == old(self).game,
            final(self).initial == old(self).initial,
            final(self).q_index == old(self).q_index,
            final(self).parent_node == old(self).parent_node,
            final(self).piles() == old(self).piles(),
            elems_extended(old(self).elems(), final(self).elems()),
            final(self).elems().len() <= old(self).elems().len() + 1,
            forall|k: int| old(self).queued(k) ==> final(self).queued(k),
            forall|k: int|
                old(self).nodes@.len() <= k < final(self).nodes@.len() ==> final(self).queued(k),
            crate::games::expansion_stored(
                old(self).game,
                old(self).piles(),
                move_option,
                final(self).elems(),
            ),
            forall|k: int|
                old(self).elems().len() <= k < final(self).elems().len()
                    ==> crate::games::stored_is_expansion(
                    old(self).game,
                    old(self).piles(),
                    move_option,
                    final(self).elems()[k],
                ),
    {
        let ghost pre = *self;
        let r = self.try_move(move_option, rank);
        proof {
            assert(r is Ok);
            let e = expand_spec(pre.game, pre.piles(), move_option);
            let cand = e.unwrap().1;
            match r {
                Ok(true) => {
                    assert(self.elems() == pre.elems().push(cand));
                    assert(self.elems().last() == cand);
                    assert(self.elems().contains(cand)) by {
                        assert(self.elems()[self.elems().len() - 1] == cand);
                    }
                },
                Ok(false) => {
                    assert(pre.elems().contains(cand));
                    assert(self.elems() == pre.elems());
                },
                Err(_) => {
                    assert(false);
                },
            }
        }
    }

    /// The single mutation entry point of every move generator: applies
    /// the move to the live piles, runs the game hook, snapshots the
    /// result as a candidate canonical state, undoes the hook and the
    /// move (the live piles are restored byte for byte), and, exactly
    /// when the candidate was never seen before, records one new node
    /// for it and files its index into the bucket the restored layout's
    /// priority picks (front of the bucket if that priority beats the
    /// bucket the search is expanding, else at a position `rank` picks).
    /// Returns whether a new node was created, or the invariant
    /// violation that made the move inapplicable.
    pub fn try_move(&mut self, move_option: Move, rank: usize) -> (r: Result<bool, SolverError>)
        requires
            old(self).wf(),
            rank >= 1,
        ensures
            final(self).wf(),
            final(self).game == old(self).game,
            final(self).initial == old(self).initial,
            final(self).q_index == old(self).q_index,
            final(self).parent_node == old(self).parent_node,
            final(self).piles() == old(self).piles(),
            r is Err <==> !move_applies(old(self).piles(), move_option, false),
            r is Err ==> *final(self) == *old(self),
            elems_extended(old(self).elems(), final(self).elems()),
            forall|k: int| old(self).queued(k) ==> final(self).queued(k),
            r == Ok::<bool, SolverError>(true) ==> final(self).queued(
                old(self).nodes@.len() as int,
            ),
            (match r {
                Ok(b) => ({
                    let e = expand_spec(old(self).game, old(self).piles(), move_option);
                    let cand = e.unwrap().1;
                    &&& e is Some
                    &&& b == !old(self).elems().contains(cand)
                    &&& (!b ==> final(self).nodes == old(self).nodes && final(self).elems()
                        == old(self).elems() && final(self).queues == old(self).queues)
                    &&& (b ==> ({
                        let pr = game_priority_spec(old(self).game, old(self).piles());
                        let idx = old(self).nodes@.len() as usize;
                        &&& final(self).elems() == old(self).elems().push(cand)
                        &&& final(self).nodes@ == old(self).nodes@.push(
                            Node {
                                parent: old(self).parent_node,
                                move_option: e.unwrap().0,
                                state_key: idx,
                            },
                        )
                        &&& forall|j: int|
                            0 <= j < NUM_BUCKETS && j != pr ==> final(self).queues@[j] == old(
                                self,
                            ).queues@[j]
                        &&& final(self).queues@[pr]@ == (if pr > old(self).q_index {
                            seq![idx] + old(self).queues@[pr]@
                        } else {
                            old(self).queues@[pr]@.insert(
                                old(self).queues@[pr]@.len() as int / (rank as int),
                                idx,
                            )
                        })
                    }))
                }),
                Err(_) => true,
            }),
    {
        let ghost pre = self.piles();
        let ghost m0 = move_option;
        let ghost old_self = *self;
        proof {
            old_self.lemma_state_current();
        }
        let game = self.game;
        let mut m = move_option;
        match perform_state_move(&mut m, &mut self.game_state, false) {
            Err(e) => {
                return Err(e);
            },
            Ok(()) => {},
        }
        let ghost s1 = state_after_move(pre, m0, false);
        let ghost m1 = (Move { card: card_after_move(pre, m0, false), ..m0 });
        proof {
            lemma_move_undo_symmetry(pre, m0);
            lemma_move_preserves_distinct(pre, m0, false);
        }
        game_on_move(game, &mut m, &mut self.game_state, false);
        let ghost m2 = hook_apply_spec(game, m1, s1).0;
        let ghost s2 = hook_apply_spec(game, m1, s1).1;
        let snapshot = clone_piles(&self.game_state);
        game_on_move(game, &mut m, &mut self.game_state, true);
        proof {
            lemma_hook_round_trip(game, m1, s1);
            lemma_hook_preserves_distinct(game, m1, s1);
        }
        let undo_result = perform_state_move(&mut m, &mut self.game_state, true);
        proof {
            assert(move_applies(s1, m2, true) && state_after_move(s1, m2, true)
                == state_after_move(s1, m1, true) && card_after_move(s1, m2, true)
                == card_after_move(s1, m1, true)) by {
                assert(same_relocation(m1, m2));
            }
            assert(undo_result is Ok);
            assert(self.piles() == pre);
        }
        let ghost m_final = (Move { card: m0.card, ..m2 });
        proof {
            assert(m == m_final);
            assert(expand_spec(game, pre, m0) == Some((m_final, s2)));
            lemma_expand_ignores_flip_index(game, pre, m_final, m0);
        }
        let is_new = state_set_insert(&mut self.states, snapshot);
        if !is_new {
            proof {
                let fin = *self;
                assert(fin.elems() == old_self.elems());
                assert(fin.piles() == old_self.piles());
                assert(fin.prev_piles() == old_self.prev_piles());
                assert forall|k: int| 0 <= k < fin.nodes@.len() implies fin.node_ok(k) by {
                    assert(old_self.node_ok(k));
                    assert(fin.prev_state_of(k) == old_self.prev_state_of(k));
                }
                assert(fin.wf());
            }
            return Ok(false);
        }
        let new_node_index = self.nodes.len();
        let node = Node {
            parent: self.parent_node,
            move_option: m,
            state_key: state_set_len(&self.states) - 1,
        };
        self.nodes.push(node);
        let outs = game_priority(game, &self.game_state);
        if outs > self.q_index {
            queue_push_front(&mut self.queues, outs, new_node_index);
        } else {
            let qlen = queue_len(&self.queues, outs);
            queue_insert_at(&mut self.queues, outs, qlen / rank, new_node_index);
        }
        proof {
            let fin = *self;
            let n = old_self.nodes@.len() as int;
            assert(fin.elems() == old_self.elems().push(s2));
            assert(fin.nodes@ == old_self.nodes@.push(node));
            assert forall|k: int| 0 <= k < fin.elems().len() implies (#[trigger] fin.elems()[k]).len()
                == fin.initial@.len() && distinct_card_ids(fin.elems()[k]) by {
                if k < n {
                    assert(fin.elems()[k] == old_self.elems()[k]);
                } else {
                    assert(fin.elems()[k] == s2);
                    assert(s1.len() == pre.len());
                }
            }
            assert forall|k1: int, k2: int|
                0 <= k1 < k2 < fin.elems().len() implies #[trigger] fin.elems()[k1]
                != #[trigger] fin.elems()[k2] by {
                if k2 == n {
                    assert(!old_self.elems().contains(s2));
                    assert(fin.elems()[k1] == old_self.elems()[k1]);
                    if fin.elems()[k1] == s2 {
                        assert(old_self.elems()[k1] == s2);
                        assert(false);
                    }
                } else {
                    assert(fin.elems()[k1] == old_self.elems()[k1]);
                    assert(fin.elems()[k2] == old_self.elems()[k2]);
                }
            }
            assert(fin.piles() == fin.prev_piles()) by {
                match fin.parent_node {
                    Some(p) => {
                        assert(fin.nodes@[p as int] == old_self.nodes@[p as int]);
                        assert(fin.elems()[old_self.nodes@[p as int].state_key as int]
                            == old_self.elems()[old_self.nodes@[p as int].state_key as int]);
                    },
                    None => {},
                }
            }
            assert forall|k: int| 0 <= k < fin.nodes@.len() implies fin.node_ok(k) by {
                if k < n {
                    assert(fin.nodes@[k] == old_self.nodes@[k]);
                    assert(old_self.node_ok(k));
                    assert(fin.prev_state_of(k) == old_self.prev_state_of(k)) by {
                        match old_self.nodes@[k].parent {
                            Some(p) => {
                                assert((p as int) < k);
                                assert(fin.nodes@[p as int] == old_self.nodes@[p as int]);
                            },
                            None => {},
                        }
                    }
                    let sk = old_self.nodes@[k].state_key as int;
                    assert(fin.elems()[sk] == old_self.elems()[sk]);
                } else {
                    assert(fin.nodes@[k] == node);
                    assert(fin.prev_state_of(k) == pre) by {
                        match old_self.parent_node {
                            Some(p) => {
                                assert(fin.nodes@[p as int] == old_self.nodes@[p as int]);
                                let sk = old_self.nodes@[p as int].state_key as int;
                                assert(fin.elems()[sk] == old_self.elems()[sk]);
                            },
                            None => {},
                        }
                    }
                    assert(fin.elems()[k] == s2);
                    assert(expand_spec(game, pre, m_final) == Some((m_final, s2)));
                }
            }
            assert(fin.wf());
            assert(elems_extended(old_self.elems(), fin.elems()));
            let pr = game_priority_spec(old_self.game, pre) as int;
            assert(fin.queued(n)) by {
                if pr > old_self.q_index {
                    assert(fin.queues@[pr]@[0] == n as usize);
                } else {
                    let pos = old_self.queues@[pr]@.len() as int / (rank as int);
                    assert(fin.queues@[pr]@[pos] == n as usize);
                }
            }
            assert forall|k: int| old_self.queued(k) implies fin.queued(k) by {
                let (qi, t): (int, int) = choose|qi: int, t: int|
                    0 <= qi < old_self.queues@.len() && 0 <= t < old_self.queues@[qi]@.len()
                        && old_self.queues@[qi]@[t] == k;
                if qi != pr {
                    assert(fin.queues@[qi]@[t] == k);
                } else if pr > old_self.q_index {
                    assert(fin.queues@[pr]@[t + 1] == k);
                } else {
                    let pos = old_self.queues@[pr]@.len() as int / (rank as int);
                    if t < pos {
                        assert(fin.queues@[pr]@[t] == k);
                    } else {
                        assert(fin.queues@[pr]@[t + 1] == k);
                    }
                }
            }
        }
        Ok(true)
    }
}

/// Two moves that relocate the same cards: all fields but `flip_index`
/// agree, so applying or undoing either has the same effect on piles.
pub open spec fn same_relocation(m1: Move, m2: Move) -> bool {
    m2.origin_stack == m1.origin_stack && m2.card == m1.card && m2.destination_stack
        == m1.destination_stack && m2.instruction == m1.instruction
}

/// Puts a node index at the front of bucket `qi`.
fn queue_push_front(queues: &mut Vec<VecDeque<usize>>, qi: usize, v: usize)
    requires
        (qi as int) < old(queues)@.len(),
    ensures
        final(queues)@.len() == old(queues)@.len(),
        forall|j: int|
            0 <= j < old(queues)@.len() && j != qi ==> final(queues)@[j] == old(queues)@[j],
        final(queues)@[qi as int]@ == seq![v] + old(queues)@[qi as int]@,
{
    let mut q = queues.remove(qi);
    q.push_front(v);
    let ghost qv = q;
    queues.insert(qi, q);
    proof {
        assert(queues@ =~= old(queues)@.update(qi as int, qv));
    }
}

/// Inserts a node index into bucket `qi` at position `pos`.
fn queue_insert_at(queues: &mut Vec<VecDeque<usize>>, qi: usize, pos: usize, v: usize)
    requires
        (qi as int) < old(queues)@.len(),
        pos <= old(queues)@[qi as int]@.len(),
    ensures
        final(queues)@.len() == old(queues)@.len(),
        forall|j: int|
            0 <= j < old(queues)@.len() && j != qi ==> final(queues)@[j] == old(queues)@[j],
        final(queues)@[qi as int]@ == old(queues)@[qi as int]@.insert(pos as int, v),
{
    let mut q = queues.remove(qi);
    q.insert(pos, v);
    let ghost qv = q;
    queues.insert(qi, q);
    proof {
        assert(queues@ =~= old(queues)@.update(qi as int, qv));
    }
}

/// Takes the front node index of bucket `qi`, if the bucket is not empty.
fn queue_pop_front(queues: &mut Vec<VecDeque<usize>>, qi: usize) -> (r: Option<usize>)
    requires
        (qi as int) < old(queues)@.len(),
    ensures
        final(queues)@.len() == old(queues)@.len(),
        forall|j: int|
            0 <= j < old(queues)@.len() && j != qi ==> final(queues)@[j] == old(queues)@[j],
        (match r {
            Some(v) => old(queues)@[qi as int]@.len() > 0 && v == old(queues)@[qi as int]@[0]
                && final(queues)@[qi as int]@ == old(queues)@[qi as int]@.subrange(
                1,
                old(queues)@[qi as int]@.len() as int,
            ),
            None => old(queues)@[qi as int]@.len() == 0 && final(queues)@[qi as int]@ == old(
                queues,
            )@[qi as int]@,
        }),
{
    let mut q = queues.remove(qi);
    let r = q.pop_front();
    let ghost qv = q;
    queues.insert(qi, q);
    proof {
        assert(queues@ =~= old(queues)@.update(qi as int, qv));
    }
    r
}

/// How many node indices bucket `qi` holds.
fn queue_len(queues: &Vec<VecDeque<usize>>, qi: usize) -> (r: usize)
    requires
        (qi as int) < queues@.len(),
    ensures
        r == queues@[qi as int]@.len(),
{
    queues[qi].len()
}

/// How one solve attempt ended. Exhaustion of moves or of the budget is
/// a normal outcome ("probably unsolvable"), never an error;
/// cancellation is kept apart so a cancelled attempt is never reported
/// as unsolvable.
#[derive(Clone, Debug, PartialEq)]
pub enum SolveOutcome {
    /// A move history from the start layout to a won layout.
    Solved(Vec<Move>),
    /// Every reachable state was seen and none was won.
    NoMoves,
    /// The node budget ran out before a won state was found.
    OutOfBudget,
    /// The cancellation flag was set.
    Cancelled,
}

/// The move history that leads to node `k`: the moves along the parent
/// links from the root, in playing order.
pub open spec fn node_path(nodes: Seq<Node>, k: int) -> Seq<Move>
    decreases k,
    when 0 <= k
{
    if 0 <= k < nodes.len() {
        match nodes[k].parent {
            Some(p) => if (p as int) < k {
                node_path(nodes, p as int).push(nodes[k].move_option)
            } else {
                Seq::empty()
            },
            None => seq![nodes[k].move_option],
        }
    } else {
        Seq::empty()
    }
}

/// Replaying the move history of any node from the initial layout
/// reproduces exactly that node's canonical state.
pub proof fn lemma_node_path_replay(st: State, k: int)
    requires
        st.wf(),
        0 <= k < st.nodes@.len(),
    ensures
        replay_spec(st.game, st.initial@, node_path(st.nodes@, k)) == Some(
            st.elems()[st.nodes@[k].state_key as int],
        ),
        node_path(st.nodes@, k).len() >= 1,
    decreases k,
{
    let node = st.nodes@[k];
    assert(st.node_ok(k));
    match node.parent {
        Some(p) => {
            assert((p as int) < k);
            lemma_node_path_replay(st, p as int);
            lemma_replay_push(
                st.game,
                st.initial@,
                node_path(st.nodes@, p as int),
                node.move_option,
            );
            assert(st.prev_state_of(k) == st.elems()[st.nodes@[p as int].state_key as int]);
        },
        None => {
            assert(node_path(st.nodes@, k) == seq![node.move_option]);
            assert(seq![node.move_option][0] == node.move_option);
            assert(seq![node.move_option].subrange(1, 1) =~= Seq::<Move>::empty());
            let cand = st.elems()[node.state_key as int];
            assert(expand_spec(st.game, st.initial@, node.move_option) == Some(
                (node.move_option, cand),
            ));
            assert(replay_spec(st.game, cand, Seq::<Move>::empty()) == Some(cand));
        },
    }
}

/// Runs the game's move generator against the live layout, filing
/// candidate moves through `try_move`: when the layout offers a safe
/// automove, one automove's expansion is the only possible addition to
/// the stored states; otherwise every candidate's expansion ends up
/// stored. Nothing but candidate expansions is ever added, and every
/// new node waits in a priority bucket.
pub fn generate_moves(state: &mut State)
    requires
        old(state).wf(),
    ensures
        final(state).wf(),
        final(state).game == old(state).game,
        final(state).initial == old(state).initial,
        final(state).q_index == old(state).q_index,
        final(state).parent_node == old(state).parent_node,
        final(state).piles() == old(state).piles(),
        elems_extended(old(state).elems(), final(state).elems()),
        forall|k: int| old(state).queued(k) ==> final(state).queued(k),
        forall|k: int|
            old(state).nodes@.len() <= k < final(state).nodes@.len() ==> final(state).queued(k),
        forall|k: int|
            #![trigger final(state).elems()[k]]
            old(state).elems().len() <= k < final(state).elems().len()
                ==> crate::games::some_candidate_expansion(
                old(state).game,
                old(state).piles(),
                final(state).elems()[k],
            ),
        !crate::games::has_automove(old(state).game, old(state).piles()) ==> forall|m: Move|
            crate::games::is_candidate_move(old(state).game, old(state).piles(), m)
                ==> crate::games::expansion_stored(
                old(state).game,
                old(state).piles(),
                m,
                final(state).elems(),
            ),
        crate::games::has_automove(old(state).game, old(state).piles())
            ==> final(state).elems().len() <= old(state).elems().len() + 1
            && crate::games::automove_expansion_stored(
            old(state).game,
            old(state).piles(),
            final(state).elems(),
        ),
        crate::games::has_automove(old(state).game, old(state).piles()) ==> forall|k: int|
            #![trigger final(state).elems()[k]]
            old(state).elems().len() <= k < final(state).elems().len()
                ==> crate::games::some_automove_expansion(
                old(state).game,
                old(state).piles(),
                final(state).elems()[k],
            ),
{
    match state.game {
        GameKind::Klondike => crate::klondike::klondike_generate(state),
        GameKind::OneFoundation { .. } => one_foundation_generate(state),
    }
}

/// Sets or clears the cooperative cancellation flag that `solve` polls.
pub fn set_should_stop(flag: &AtomicBool, should_stop: bool) {
    flag.store(should_stop, Ordering::SeqCst);
}

/// Reads the cooperative cancellation flag. Another thread may change
/// the flag at any moment, so nothing can be promised of the value.
pub fn get_should_stop(flag: &AtomicBool) -> bool {
    flag.load(Ordering::Relaxed)
}

/// Polls of the cancellation flag happen exactly at expansion counts
/// divisible by the polling interval, so from any expansion count the
/// next poll lies less than one full interval away: once the flag is
/// set, `solve` answers within one polling interval's worth of
/// expansions.
pub proof fn lemma_poll_within_interval(expanded: int)
    requires
        expanded >= 0,
    ensures
        ({
            let interval = POLL_INTERVAL as int;
            let next = expanded + ((interval - expanded % interval) % interval);
            &&& expanded <= next < expanded + interval
            &&& next % interval == 0
        }),
{
    let interval = POLL_INTERVAL as int;
    let r = expanded % interval;
    assert(0 <= r < interval);
    if r == 0 {
        assert((interval - r) % interval == 0);
    } else {
        assert((interval - r) % interval == interval - r);
        assert((expanded + (interval - r)) % interval == 0) by (nonlinear_arith)
            requires
                interval == 200,
                r == expanded % interval,
                0 < r < interval,
        ;
    }
}

/// Bounded best-first search: seeds the frontier by one generator run
/// against the initial layout, then repeatedly takes the front node of
/// the most promising non-empty bucket (with hysteresis that prefers to
/// stay in the bucket it last expanded), restores that node's canonical
/// state, and either recognises a win — returning the move history that
/// replays from the initial layout to that won state — or expands the
/// node through the generator. Polls the cancellation flag every
/// `POLL_INTERVAL` expansions and stops within `NODE_BUDGET` expansions
/// whatever the generator proposes, since every seen state is expanded
/// at most once.
pub fn solve(game: GameKind, game_state: &Vec<Vec<u8>>, should_stop: &AtomicBool) -> (r:
    SolveOutcome)
    requires
        game_piles_ok(game, piles_view(*game_state)),
        distinct_card_ids(piles_view(*game_state)),
    ensures
        (match r {
            SolveOutcome::Solved(h) => ({
                let end = replay_spec(game, piles_view(*game_state), h@);
                &&& h@.len() >= 1
                &&& end is Some
                &&& is_won_spec(game, end.unwrap())
            }),
            _ => true,
        }),
        r == SolveOutcome::NoMoves ==> ({
            let init = piles_view(*game_state);
            &&& (!crate::games::has_automove(game, init) ==> forall|m: Move|
                crate::games::is_candidate_move(game, init, m) ==> !crate::games::expansion_won(
                    game,
                    init,
                    m,
                ))
            &&& (crate::games::has_automove(game, init) ==> exists|m: Move|
                crate::games::is_automove_move(game, init, m) && !crate::games::expansion_won(
                    game,
                    init,
                    m,
                ))
        }),
{
    let ghost gv0 = piles_view(*game_state);
    let mut state = State::new(game, clone_piles(game_state));
    generate_moves(&mut state);
    let mut n_q_expand: usize = 0;
    let mut last_q_idx: usize = 0;
    let mut expanded: usize = 0;
    while expanded < NODE_BUDGET
        invariant
            state.wf(),
            state.game == game,
            state.initial@ == gv0,
            gv0 == piles_view(*game_state),
            expanded <= NODE_BUDGET,
            n_q_expand <= expanded,
            last_q_idx < NUM_BUCKETS,
            !crate::games::has_automove(game, gv0) ==> forall|m: Move|
                crate::games::is_candidate_move(game, gv0, m) ==> crate::games::expansion_stored(
                    game,
                    gv0,
                    m,
                    state.elems(),
                ),
            crate::games::has_automove(game, gv0) ==> crate::games::automove_expansion_stored(
                game,
                gv0,
                state.elems(),
            ),
            forall|k: int|
                #![trigger state.elems()[k]]
                0 <= k < state.elems().len() ==> state.queued(k) || !is_won_spec(
                    game,
                    state.elems()[k],
                ),
        decreases NODE_BUDGET - expanded,
    {
        if expanded % POLL_INTERVAL == 0 {
            if get_should_stop(should_stop) {
                return SolveOutcome::Cancelled;
            }
        }
        let mut chosen: Option<usize> = None;
        let mut highest_q = true;
        let mut bi: usize = NUM_BUCKETS;
        while bi > 0
            invariant_except_break
                bi <= NUM_BUCKETS,
                state.queues@.len() == NUM_BUCKETS,
                (match chosen {
                    Some(qi) => qi < NUM_BUCKETS && state.queues@[qi as int]@.len() > 0,
                    None => forall|qi: int|
                        bi <= qi < NUM_BUCKETS ==> state.queues@[qi]@.len() == 0,
                }),
            ensures
                (match chosen {
                    Some(qi) => qi < NUM_BUCKETS && state.queues@[qi as int]@.len() > 0,
                    None => forall|qi: int|
                        0 <= qi < NUM_BUCKETS ==> state.queues@[qi]@.len() == 0,
                }),
            decreases bi,
        {
            bi = bi - 1;
            if queue_len(&state.queues, bi) > 0 {
                chosen = Some(bi);
                if (highest_q && n_q_expand < bi) || (bi < last_q_idx || last_q_idx == 0) {
                    break ;
                }
                highest_q = false;
            }
        }
        let q_index = match chosen {
            None => {
                proof {
                    assert forall|k: int|
                        0 <= k < state.elems().len() implies !is_won_spec(
                        game,
                        state.elems()[k],
                    ) by {
                        assert(!state.queued(k));
                    }
                    if crate::games::has_automove(game, gv0) {
                        let m = choose|m: Move|
                            crate::games::is_automove_move(game, gv0, m)
                                && crate::games::expansion_stored(game, gv0, m, state.elems());
                        match expand_spec(game, gv0, m) {
                            Some(p) => {
                                let idx = choose|idx: int|
                                    0 <= idx < state.elems().len() && state.elems()[idx] == p.1;
                                assert(!is_won_spec(game, state.elems()[idx]));
                                assert(!crate::games::expansion_won(game, gv0, m));
                            },
                            None => {},
                        }
                    } else {
                        assert forall|m: Move|
                            crate::games::is_candidate_move(game, gv0, m)
                                implies !crate::games::expansion_won(game, gv0, m) by {
                            assert(crate::games::expansion_stored(game, gv0, m, state.elems()));
                            match expand_spec(game, gv0, m) {
                                Some(p) => {
                                    let idx = choose|idx: int|
                                        0 <= idx < state.elems().len() && state.elems()[idx]
                                            == p.1;
                                    assert(!is_won_spec(game, state.elems()[idx]));
                                },
                                None => {},
                            }
                        }
                    }
                }
                return SolveOutcome::NoMoves;
            },
            Some(qi) => qi,
        };
        let ghost before_pop = state;
        let popped = queue_pop_front(&mut state.queues, q_index);
        proof {
            assert(popped is Some);
        }
        let node_index = popped.unwrap();
        proof {
            assert(before_pop.queues@[q_index as int]@[0] < state.nodes@.len());
        }
        let node = state.nodes[node_index];
        let restored = state_set_get_index(&state.states, node.state_key);
        proof {
            assert(node.state_key < state.elems().len());
        }
        state.game_state = restored.unwrap();
        state.parent_node = Some(node_index);
        state.q_index = q_index;
        proof {
            let fin = state;
            let pre = before_pop;
            assert(fin.piles() == fin.prev_piles());
            assert forall|qi: int, t: int|
                0 <= qi < fin.queues@.len() && 0 <= t < fin.queues@[qi]@.len() implies (
            #[trigger] fin.queues@[qi]@[t]) < fin.nodes@.len() by {
                if qi == q_index {
                    assert(fin.queues@[qi]@[t] == pre.queues@[qi]@[t + 1]);
                }
            }
            assert forall|k: int| 0 <= k < fin.nodes@.len() implies fin.node_ok(k) by {
                assert(pre.node_ok(k));
                assert(fin.prev_state_of(k) == pre.prev_state_of(k));
            }
            assert(fin.wf());
            state.lemma_state_current();
        }
        if game_is_won(game, &state.game_state) {
            let ghost k0 = node_index as int;
            proof {
                lemma_node_path_replay(state, k0);
            }
            let mut rev_history: Vec<Move> = Vec::new();
            let mut cur = node_index;
            let ghost nodes_seq = state.nodes@;
            proof {
                assert(node_path(nodes_seq, k0) =~= node_path(nodes_seq, cur as int)
                    + rev_history@.reverse());
            }
            loop
                invariant_except_break
                    (cur as int) < nodes_seq.len(),
                    nodes_seq == state.nodes@,
                    state.wf(),
                    node_path(nodes_seq, k0) == node_path(nodes_seq, cur as int)
                        + rev_history@.reverse(),
                ensures
                    node_path(nodes_seq, k0) == rev_history@.reverse(),
                    rev_history@.len() >= 1,
                decreases cur,
            {
                let ghost h0 = rev_history@;
                let node = state.nodes[cur];
                rev_history.push(node.move_option);
                proof {
                    assert(rev_history@.reverse() =~= seq![node.move_option] + h0.reverse());
                    assert((match nodes_seq[cur as int].parent {
                        Some(p) => (p as int) < cur as int,
                        None => true,
                    }));
                }
                match node.parent {
                    Some(p) => {
                        proof {
                            assert(node_path(nodes_seq, cur as int) == node_path(
                                nodes_seq,
                                p as int,
                            ).push(node.move_option));
                            assert(node_path(nodes_seq, p as int).push(node.move_option)
                                + h0.reverse() =~= node_path(nodes_seq, p as int) + (seq![
                                node.move_option,
                            ] + h0.reverse()));
                        }
                        cur = p;
                    },
                    None => {
                        proof {
                            assert(node_path(nodes_seq, cur as int) == seq![node.move_option]);
                            assert(seq![node.move_option] + h0.reverse() =~= rev_history@.reverse());
                        }
                        break ;
                    },
                }
            }
            let mut history: Vec<Move> = Vec::new();
            let n = rev_history.len();
            for t in 0..n
                invariant
                    n == rev_history@.len(),
                    history@.len() == t,
                    forall|u: int|
                        0 <= u < t ==> #[trigger] history@[u] == rev_history@[n - 1 - u],
            {
                history.push(rev_history[n - 1 - t]);
            }
            proof {
                assert(history@ =~= rev_history@.reverse());
                assert(history@ == node_path(nodes_seq, k0));
                assert(replay_spec(game, gv0, history@) == Some(
                    state.elems()[nodes_seq[k0].state_key as int],
                ));
                assert(is_won_spec(game, state.piles()));
                assert(state.piles() == state.elems()[nodes_seq[k0].state_key as int]);
                assert(history@.len() >= 1);
                assert(replay_spec(game, gv0, history@) is Some);
                assert(is_won_spec(game, replay_spec(game, gv0, history@).unwrap()));
            }
            return SolveOutcome::Solved(history);
        }
        let ghost gen_pre = state;
        proof {
            assert(!is_won_spec(game, gen_pre.elems()[node_index as int]));
        }
        generate_moves(&mut state);
        proof {
            if !crate::games::has_automove(game, gv0) {
                assert forall|m: Move|
                    crate::games::is_candidate_move(game, gv0, m)
                        implies crate::games::expansion_stored(game, gv0, m, state.elems()) by {
                    assert(crate::games::expansion_stored(game, gv0, m, before_pop.elems()));
                    crate::games::lemma_stored_extended(
                        game,
                        gv0,
                        m,
                        gen_pre.elems(),
                        state.elems(),
                    );
                }
            } else {
                let m = choose|m: Move|
                    crate::games::is_automove_move(game, gv0, m)
                        && crate::games::expansion_stored(game, gv0, m, before_pop.elems());
                crate::games::lemma_stored_extended(game, gv0, m, gen_pre.elems(), state.elems());
                assert(crate::games::automove_expansion_stored(game, gv0, state.elems()));
            }
            assert forall|k: int| #![trigger state.elems()[k]]
                0 <= k < state.elems().len() implies state.queued(k) || !is_won_spec(
                game,
                state.elems()[k],
            ) by {
                if k < gen_pre.elems().len() {
                    assert(state.elems()[k] == gen_pre.elems()[k]);
                    assert(gen_pre.elems()[k] == before_pop.elems()[k]);
                    if k == node_index as int {
                        assert(!is_won_spec(game, gen_pre.elems()[k]));
                    } else if before_pop.queued(k) {
                        let (qi, t): (int, int) = choose|qi: int, t: int|
                            0 <= qi < before_pop.queues@.len() && 0 <= t
                                < before_pop.queues@[qi]@.len() && before_pop.queues@[qi]@[t]
                                == k;
                        assert(gen_pre.queued(k)) by {
                            if qi != q_index {
                                assert(gen_pre.queues@[qi]@[t] == k);
                            } else {
                                assert(t != 0);
                                assert(gen_pre.queues@[qi]@[t - 1] == k);
                            }
                        }
                        assert(state.queued(k));
                    } else {
                        assert(!is_won_spec(game, before_pop.elems()[k]));
                    }
                } else {
                    assert(state.queued(k));
                }
            }
        }
        expanded = expanded + 1;
        if q_index == last_q_idx {
            n_q_expand = n_q_expand + 1;
        } else {
            last_q_idx = q_index;
            n_q_expand = 0;
        }
    }
    SolveOutcome::OutOfBudget
}

/// The deduplication invariant: a well-formed search state stores
/// exactly one canonical state per node, and two distinct nodes always
/// point at unequal canonical states — the driver never expands the
/// same layout twice.
pub proof fn lemma_dedup_invariant(st: State, k1: int, k2: int)
    requires
        st.wf(),
        0 <= k1 < k2 < st.nodes@.len(),
    ensures
        st.nodes@.len() == st.elems().len(),
        st.elems()[st.nodes@[k1].state_key as int] != st.elems()[st.nodes@[k2].state_key as int],
{
    assert(st.nodes@[k1].state_key == k1);
    assert(st.nodes@[k2].state_key == k2);
}

} // verus!
