//! The card codec.
//!
//! A card is a single byte: the low seven bits are `suit * 13 + rank`
//! (ids 53 and 54 are the two jokers), and bit 7 marks a face-down card.

use vstd::prelude::*;

verus! {

/// Bit 7 of a card byte: set when the card lies face down.
pub const FACE_DOWN_BIT: u8 = 128;

/// Identity of a card: the byte with the face-down bit cleared.
pub open spec fn card_id(card: u8) -> u8 {
    (card % 128) as u8
}

/// Rank of a card, `0` (ace) through `12` (king).
pub open spec fn rank_of(card: u8) -> u8 {
    (card_id(card) % 13) as u8
}

/// Suit of a card: `0` clubs, `1` hearts, `2` spades, `3` diamonds.
pub open spec fn suit_of(card: u8) -> u8 {
    (card_id(card) / 13) as u8
}

/// Whether the card lies face down.
pub open spec fn face_down(card: u8) -> bool {
    card >= 128
}

/// The same card with its face-down bit toggled.
pub open spec fn flipped(card: u8) -> u8 {
    if card >= 128 {
        (card - 128) as u8
    } else {
        (card + 128) as u8
    }
}

/// The byte that encodes `suit`, `rank` and a face orientation.
pub open spec fn encoded(suit: u8, rank: u8, is_face_down: bool) -> u8
    recommends
        suit < 4,
        rank < 13,
{
    (suit * 13 + rank + if is_face_down { 128 as int } else { 0 as int }) as u8
}

/// A card id below 52 names one of the 52 playing cards (53 and 54 are jokers).
pub open spec fn valid_card(card: u8) -> bool {
    card_id(card) < 52
}

/// Identity of a card, ignoring its face orientation.
pub fn solver_card_to_id(card: &u8) -> (r: u8)
    ensures
        r == card_id(*card),
{
    proof {
        assert(*card & 0x7f == *card % 128) by (bit_vector);
    }
    *card & 0x7f
}

/// Clears the face-down bit in place.
pub fn mut_solver_card_to_id(card: &mut u8)
    ensures
        *final(card) == card_id(*old(card)),
{
    proof {
        let c = *old(card);
        assert(c & 0x7f == c % 128) by (bit_vector);
    }
    *card &= 0x7f;
}

/// Whether the card lies face down.
pub fn is_flipped(card: &u8) -> (r: bool)
    ensures
        r == face_down(*card),
{
    proof {
        assert(((*card & 0x80) != 0) == (*card >= 128)) by (bit_vector);
    }
    (*card & 0x80) != 0
}

/// Toggles the face-down bit in place.
pub fn flip(card: &mut u8)
    ensures
        *final(card) == flipped(*old(card)),
{
    proof {
        let c = *old(card);
        assert(c ^ 0x80 == if c >= 128 { (c - 128) as u8 } else { (c + 128) as u8 })
            by (bit_vector);
    }
    *card ^= 0x80;
}

/// The card with its face-down bit toggled.
pub fn card_flipped(card: &u8) -> (r: u8)
    ensures
        r == flipped(*card),
{
    proof {
        let c = *card;
        assert(c ^ 0x80 == if c >= 128 { (c - 128) as u8 } else { (c + 128) as u8 })
            by (bit_vector);
    }
    *card ^ 0x80
}

/// Whether `card_higher` ranks exactly one above `card_lower`, faces ignored.
pub fn is_one_rank_above(card_lower: &u8, card_higher: &u8) -> (r: bool)
    ensures
        r == (rank_of(*card_lower) + 1 == rank_of(*card_higher)),
{
    let lower_rank = solver_card_to_id(card_lower) % 13;
    let higher_rank = solver_card_to_id(card_higher) % 13;
    (lower_rank + 1) == higher_rank
}

/// Whether the two cards share a suit, faces ignored.
pub fn is_same_suit(card_1: &u8, card_2: &u8) -> (r: bool)
    ensures
        r == (suit_of(*card_1) == suit_of(*card_2)),
{
    (solver_card_to_id(card_1) / 13) == (solver_card_to_id(card_2) / 13)
}

/// Whether the two cards share a colour family (clubs with spades,
/// hearts with diamonds), faces ignored.
pub fn is_similar_suit(card_1: &u8, card_2: &u8) -> (r: bool)
    ensures
        r == (black_suit(suit_of(*card_1)) == black_suit(suit_of(*card_2))),
{
    let self_suit = solver_card_to_id(card_1) / 13;
    let other_suit = solver_card_to_id(card_2) / 13;
    (self_suit == 0 || self_suit == 2) == (other_suit == 0 || other_suit == 2)
}

/// Whether the suit index names a black suit (clubs or spades).
pub open spec fn black_suit(suit: u8) -> bool {
    suit == 0 || suit == 2
}

/// Whether the card is red (hearts or diamonds), faces ignored.
pub fn is_red(card: &u8) -> (r: bool)
    ensures
        r == (suit_of(*card) == 1 || suit_of(*card) == 3),
{
    let suit = solver_card_to_id(card) / 13;
    suit == 1 || suit == 3
}

/// Packs a suit, a rank and a face orientation into one card byte.
pub fn encode(suit: u8, rank: u8, is_face_down: bool) -> (r: u8)
    requires
        suit < 4,
        rank < 13,
    ensures
        r == encoded(suit, rank, is_face_down),
{
    suit * 13 + rank + if is_face_down { 128 } else { 0 }
}

/// Unpacks a card byte into its suit, rank and face orientation.
pub fn decode(card: u8) -> (r: (u8, u8, bool))
    requires
        valid_card(card),
    ensures
        r.0 == suit_of(card),
        r.1 == rank_of(card),
        r.2 == face_down(card),
{
    let id = solver_card_to_id(&card);
    (id / 13, id % 13, is_flipped(&card))
}

/// The codec round-trips: decoding an encoded card returns the suit,
/// rank and face orientation that were put in, for every legal triple.
pub proof fn lemma_codec_round_trip(suit: u8, rank: u8, is_face_down: bool)
    requires
        suit < 4,
        rank < 13,
    ensures
        valid_card(encoded(suit, rank, is_face_down)),
        suit_of(encoded(suit, rank, is_face_down)) == suit,
        rank_of(encoded(suit, rank, is_face_down)) == rank,
        face_down(encoded(suit, rank, is_face_down)) == is_face_down,
{
    let c = encoded(suit, rank, is_face_down);
    assert(card_id(c) == suit * 13 + rank);
}

/// Flipping a card twice returns the original byte; flipping never
/// changes the card's identity.
pub proof fn lemma_flip_involution(card: u8)
    ensures
        flipped(flipped(card)) == card,
        card_id(flipped(card)) == card_id(card),
        face_down(flipped(card)) == !face_down(card),
{
}

} // verus!
