//! Tests of the card codec and the card-name translation.

use solitaire::card::{
    encode, decode, solver_card_to_id, mut_solver_card_to_id, is_flipped, flip, card_flipped,
    is_one_rank_above, is_same_suit, is_similar_suit, is_red,
};
use solitaire::names::{get_rank, solver_card_to_name, try_card_name, card_name_to_solver};

#[test]
fn codec_round_trips_for_every_triple() {
    for suit in 0..4u8 {
        for rank in 0..13u8 {
            for &face_down in &[false, true] {
                let card = encode(suit, rank, face_down);
                let (s, r, f) = decode(card);
                assert_eq!((s, r, f), (suit, rank, face_down));
            }
        }
    }
}

#[test]
fn encoding_is_injective_over_all_triples() {
    let mut seen = Vec::new();
    for suit in 0..4u8 {
        for rank in 0..13u8 {
            for &face_down in &[false, true] {
                let card = encode(suit, rank, face_down);
                assert!(!seen.contains(&card));
                seen.push(card);
            }
        }
    }
    assert_eq!(seen.len(), 104);
}

#[test]
fn flipping_toggles_the_face_and_keeps_the_identity() {
    for suit in 0..4u8 {
        for rank in 0..13u8 {
            let up = encode(suit, rank, false);
            let down = card_flipped(&up);
            assert_eq!(down, encode(suit, rank, true));
            assert_eq!(card_flipped(&down), up);
            assert!(!is_flipped(&up));
            assert!(is_flipped(&down));
            assert_eq!(solver_card_to_id(&up), solver_card_to_id(&down));
        }
    }
}

#[test]
fn in_place_flip_and_id_masking() {
    let mut card = encode(2, 4, false);
    flip(&mut card);
    assert_eq!(card, encode(2, 4, true));
    flip(&mut card);
    assert_eq!(card, encode(2, 4, false));
    let mut hidden = encode(3, 12, true);
    mut_solver_card_to_id(&mut hidden);
    assert_eq!(hidden, encode(3, 12, false));
}

#[test]
fn rank_adjacency_ignores_suit_and_face() {
    let club_ace = encode(0, 0, false);
    let club_2 = encode(0, 1, false);
    let heart_2 = encode(1, 1, true);
    assert!(is_one_rank_above(&club_ace, &club_2));
    assert!(is_one_rank_above(&club_ace, &heart_2));
    assert!(!is_one_rank_above(&club_2, &club_ace));
    let king = encode(0, 12, false);
    assert!(!is_one_rank_above(&king, &club_ace));
}

#[test]
fn suit_predicates() {
    let club = encode(0, 5, false);
    let heart = encode(1, 5, false);
    let spade = encode(2, 5, true);
    let diamond = encode(3, 5, false);
    assert!(is_same_suit(&club, &encode(0, 9, true)));
    assert!(!is_same_suit(&club, &spade));
    assert!(is_similar_suit(&club, &spade));
    assert!(is_similar_suit(&heart, &diamond));
    assert!(!is_similar_suit(&club, &heart));
    assert!(!is_red(&club));
    assert!(is_red(&heart));
    assert!(!is_red(&spade));
    assert!(is_red(&diamond));
}

#[test]
fn rank_names() {
    assert_eq!(get_rank(&encode(0, 0, false)), "ace");
    assert_eq!(get_rank(&encode(1, 1, false)), "2");
    assert_eq!(get_rank(&encode(2, 9, true)), "10");
    assert_eq!(get_rank(&encode(3, 10, false)), "jack");
    assert_eq!(get_rank(&encode(0, 11, false)), "queen");
    assert_eq!(get_rank(&encode(1, 12, true)), "king");
}

#[test]
fn card_names_round_trip() {
    for suit in 0..4u8 {
        for rank in 0..13u8 {
            let up = encode(suit, rank, false);
            let name = solver_card_to_name(up);
            assert_eq!(card_name_to_solver(&name, false), up);
            assert_eq!(card_name_to_solver(&name, true), encode(suit, rank, true));
            // A face-down card has the same display name.
            assert_eq!(solver_card_to_name(encode(suit, rank, true)), name);
        }
    }
    assert_eq!(solver_card_to_name(0), "club_ace");
    assert_eq!(solver_card_to_name(5), "club_6");
    assert_eq!(solver_card_to_name(53), "joker_red");
    assert_eq!(solver_card_to_name(54), "joker_black");
    assert_eq!(solver_card_to_name(99), "");
}

#[test]
fn unknown_names_are_rejected() {
    assert_eq!(try_card_name("joker_red", false), None);
    assert_eq!(try_card_name("club_fourteen", false), None);
    assert_eq!(try_card_name("", false), None);
    assert_eq!(try_card_name("club_ace", false), Some(0));
    assert_eq!(try_card_name("club_ace", true), Some(128));
}
