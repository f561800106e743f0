//! Translation between card bytes and the board's card names
//! ("club_ace", "diamond_10", "joker_red").

use vstd::prelude::*;
use vstd::string::StringExecFns;
use crate::card::{card_id, suit_of, rank_of, encoded, solver_card_to_id};

verus! {

/// The board name of a suit index.
pub open spec fn suit_name(s: u8) -> Seq<char> {
    if s == 0 {
        "club"@
    } else if s == 1 {
        "heart"@
    } else if s == 2 {
        "spade"@
    } else {
        "diamond"@
    }
}

/// The board name of a rank index.
pub open spec fn rank_name(r: u8) -> Seq<char> {
    if r == 0 {
        "ace"@
    } else if r == 1 {
        "2"@
    } else if r == 2 {
        "3"@
    } else if r == 3 {
        "4"@
    } else if r == 4 {
        "5"@
    } else if r == 5 {
        "6"@
    } else if r == 6 {
        "7"@
    } else if r == 7 {
        "8"@
    } else if r == 8 {
        "9"@
    } else if r == 9 {
        "10"@
    } else if r == 10 {
        "jack"@
    } else if r == 11 {
        "queen"@
    } else {
        "king"@
    }
}

/// The board name of the card with suit `s` and rank `r`.
pub open spec fn base_name(s: u8, r: u8) -> Seq<char> {
    suit_name(s) + "_"@ + rank_name(r)
}

/// Whether the text names one of the 52 playing cards.
pub open spec fn is_card_name(name: Seq<char>) -> bool {
    exists|s: u8, r: u8| s < 4 && r < 13 && name == #[trigger] base_name(s, r)
}

/// What the board calls a card byte: a suit and rank name for the 52
/// playing cards, a joker name for the two reserved identities, and
/// nothing for identities outside the encoding.
pub open spec fn card_display_name(card: u8) -> Seq<char> {
    if card_id(card) > 54 {
        Seq::<char>::empty()
    } else if card_id(card) == 53 {
        "joker_red"@
    } else if card_id(card) == 54 {
        "joker_black"@
    } else {
        base_name(suit_of(card), rank_of(card))
    }
}

/// The board name of a rank, "ace" through "king".
pub fn get_rank(card: &u8) -> (r: &'static str)
    ensures
        r@ == rank_name(rank_of(*card)),
{
    let rank = solver_card_to_id(card) % 13;
    match rank {
        0 => "ace",
        1 => "2",
        2 => "3",
        3 => "4",
        4 => "5",
        5 => "6",
        6 => "7",
        7 => "8",
        8 => "9",
        9 => "10",
        10 => "jack",
        11 => "queen",
        _ => "king",
    }
}

/// The board name of a suit index (indices above 3 do not occur in
/// encoded cards).
fn suit_str(s: u8) -> (r: &'static str)
    ensures
        r@ == suit_name(s),
{
    match s {
        0 => "club",
        1 => "heart",
        2 => "spade",
        _ => "diamond",
    }
}

/// The board name of a card byte, face ignored: empty for identities
/// outside the encoding, the joker names for 53 and 54, and
/// "<suit>_<rank>" otherwise.
pub fn solver_card_to_name(card: u8) -> (r: String)
    ensures
        r@ == card_display_name(card),
{
    let id = solver_card_to_id(&card);
    if id > 54 {
        return String::new();
    }
    if id == 53 {
        return "joker_red".to_owned();
    }
    if id == 54 {
        return "joker_black".to_owned();
    }
    let mut name = suit_str(id / 13).to_owned();
    name.append("_");
    name.append(get_rank(&card));
    name
}

/// The card byte a board name denotes, with the face-down bit set when
/// asked for, or nothing when the text names no playing card.
pub fn try_card_name(name: &str, is_flipped: bool) -> (r: Option<u8>)
    ensures
        (match r {
            Some(c) => exists|s: u8, r2: u8|
                s < 4 && r2 < 13 && name@ == #[trigger] base_name(s, r2) && c == encoded(
                    s,
                    r2,
                    is_flipped,
                ),
            None => !is_card_name(name@),
        }),
{
    let name_string = name.to_owned();
    for s in 0..4u8
        invariant
            name_string@ == name@,
            forall|s0: u8, r0: u8| s0 < s && r0 < 13 ==> name@ != #[trigger] base_name(s0, r0),
    {
        for r in 0..13u8
            invariant
                name_string@ == name@,
                s < 4,
                forall|s0: u8, r0: u8| s0 < s && r0 < 13 ==> name@ != #[trigger] base_name(s0, r0),
                forall|r0: u8| r0 < r ==> name@ != #[trigger] base_name(s, r0),
        {
            let mut candidate = suit_str(s).to_owned();
            candidate.append("_");
            let rank_byte: u8 = r;
            let card = s * 13 + rank_byte;
            candidate.append(get_rank(&card));
            proof {
                assert(rank_of(card) == rank_byte);
                assert(candidate@ == base_name(s, rank_byte));
            }
            if name_string == candidate {
                let c = if is_flipped {
                    card + 128
                } else {
                    card
                };
                return Some(c);
            }
        }
    }
    proof {
        assert forall|s0: u8, r0: u8| s0 < 4 && r0 < 13 implies name@ != #[trigger] base_name(
            s0,
            r0,
        ) by {}
    }
    None
}

/// The card byte a board name denotes. The name must denote a playing
/// card; `try_card_name` reports unknown names instead.
pub fn card_name_to_solver(name: &str, is_flipped: bool) -> (r: u8)
    requires
        is_card_name(name@),
    ensures
        exists|s: u8, r2: u8|
            s < 4 && r2 < 13 && name@ == #[trigger] base_name(s, r2) && r == encoded(
                s,
                r2,
                is_flipped,
            ),
{
    let r = try_card_name(name, is_flipped);
    proof {
        assert(r is Some);
    }
    r.unwrap()
}

/// Different ranks never share a board name.
#[verifier::rlimit(100)]
pub proof fn lemma_rank_name_injective(r1: u8, r2: u8)
    requires
        r1 < 13,
        r2 < 13,
        rank_name(r1) == rank_name(r2),
    ensures
        r1 == r2,
{
    reveal_strlit("ace");
    reveal_strlit("2");
    reveal_strlit("3");
    reveal_strlit("4");
    reveal_strlit("5");
    reveal_strlit("6");
    reveal_strlit("7");
    reveal_strlit("8");
    reveal_strlit("9");
    reveal_strlit("10");
    reveal_strlit("jack");
    reveal_strlit("queen");
    reveal_strlit("king");
    assert(rank_name(0).len() == 3 && rank_name(0)[0] == 'a');
    assert(rank_name(1).len() == 1 && rank_name(1)[0] == '2');
    assert(rank_name(2).len() == 1 && rank_name(2)[0] == '3');
    assert(rank_name(3).len() == 1 && rank_name(3)[0] == '4');
    assert(rank_name(4).len() == 1 && rank_name(4)[0] == '5');
    assert(rank_name(5).len() == 1 && rank_name(5)[0] == '6');
    assert(rank_name(6).len() == 1 && rank_name(6)[0] == '7');
    assert(rank_name(7).len() == 1 && rank_name(7)[0] == '8');
    assert(rank_name(8).len() == 1 && rank_name(8)[0] == '9');
    assert(rank_name(9).len() == 2 && rank_name(9)[0] == '1');
    assert(rank_name(10).len() == 4 && rank_name(10)[0] == 'j');
    assert(rank_name(11).len() == 5 && rank_name(11)[0] == 'q');
    assert(rank_name(12).len() == 4 && rank_name(12)[0] == 'k');
    if r1 != r2 {
        assert(false);
    }
}

/// A board name determines its card: suit and rank read back uniquely.
pub proof fn lemma_base_name_injective(s1: u8, r1: u8, s2: u8, r2: u8)
    requires
        s1 < 4,
        r1 < 13,
        s2 < 4,
        r2 < 13,
        base_name(s1, r1) == base_name(s2, r2),
    ensures
        s1 == s2,
        r1 == r2,
{
    reveal_strlit("club");
    reveal_strlit("heart");
    reveal_strlit("spade");
    reveal_strlit("diamond");
    reveal_strlit("_");
    assert(suit_name(0).len() == 4 && suit_name(0)[0] == 'c');
    assert(suit_name(1).len() == 5 && suit_name(1)[0] == 'h');
    assert(suit_name(2).len() == 5 && suit_name(2)[0] == 's');
    assert(suit_name(3).len() == 7 && suit_name(3)[0] == 'd');
    assert(suit_name(s1).len() > 0 && suit_name(s2).len() > 0);
    assert(base_name(s1, r1)[0] == suit_name(s1)[0]);
    assert(base_name(s2, r2)[0] == suit_name(s2)[0]);
    if s1 != s2 {
        assert(suit_name(s1)[0] != suit_name(s2)[0]);
        assert(false);
    }
    let pre = suit_name(s1).len() as int + 1;
    assert(base_name(s1, r1).subrange(pre, base_name(s1, r1).len() as int) =~= rank_name(r1));
    assert(base_name(s2, r2).subrange(pre, base_name(s2, r2).len() as int) =~= rank_name(r2));
    lemma_rank_name_injective(r1, r2);
}

} // verus!
