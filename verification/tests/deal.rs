use solitare::card::Card;
use solitare::solitare_state::{from_deck, shuffle, shuffled_deck, Column, SolitareState};

fn canonical_deck() -> Vec<u8> {
    (0..52).map(|i| Card::from_index(i).0).collect()
}

#[test]
fn shuffled_deck_holds_every_card_once() {
    let deck = shuffled_deck();
    assert_eq!(deck.len(), 52);
    let mut seen = [false; 52];
    for &b in deck.iter() {
        let i = Card(b).to_ind();
        assert!(!seen[i]);
        seen[i] = true;
    }
    assert!(seen.iter().all(|&x| x));
}

#[test]
fn shuffle_preserves_multiset() {
    let mut data: Vec<u8> = vec![5, 5, 7, 9, 200, 0, 0, 0, 1];
    let mut expected = data.clone();
    shuffle(&mut data);
    let mut got = data.clone();
    got.sort();
    expected.sort();
    assert_eq!(got, expected);
}

#[test]
fn deal_shapes() {
    // column i has i+1 cards, i of them face down; foundations empty;
    // reserve popcount plus column lengths account for all 52 cards
    let s = from_deck(&canonical_deck());
    let mut total = 0usize;
    for c in 0..7u8 {
        assert_eq!(s.column_len(c), c as usize + 1);
        assert_eq!(s.column_hidden(c), c as usize);
        total += s.column_len(c);
    }
    for suit in 0..4u8 {
        assert_eq!(s.foundation_top(suit), 0);
    }
    let reserve = s.reserve_cards();
    assert_eq!(reserve.len(), 24);
    assert_eq!(reserve.len() + total, 52);
    assert!(s.is_well_formed());
}

#[test]
fn deal_is_deterministic_in_the_deck() {
    // columns are filled left to right, each taking consecutive cards
    let deck = canonical_deck();
    let s = from_deck(&deck);
    let mut cur = 0usize;
    for c in 0..7u8 {
        for r in 0..s.column_len(c) {
            let (card, face_down) = s.column_card(c, r);
            assert_eq!(card.0, deck[cur]);
            assert_eq!(face_down, r < c as usize);
            cur += 1;
        }
    }
    assert_eq!(cur, 28);
    // the rest fill the reserve in ascending index order
    let reserve = s.reserve_cards();
    let mut rest: Vec<usize> = deck[28..].iter().map(|&b| Card(b).to_ind()).collect();
    rest.sort();
    let got: Vec<usize> = reserve.iter().map(|c| c.to_ind()).collect();
    assert_eq!(got, rest);
}

#[test]
fn fresh_deal_is_well_formed() {
    let s = SolitareState::new();
    assert!(s.is_well_formed());
    for c in 0..7u8 {
        assert_eq!(s.column_len(c), c as usize + 1);
        assert_eq!(s.column_hidden(c), c as usize);
    }
    assert_eq!(s.reserve_cards().len(), 24);
}

#[test]
fn shuffle_of_empty_and_single() {
    let mut empty: Vec<u8> = Vec::new();
    shuffle(&mut empty);
    assert!(empty.is_empty());
    let mut one: Vec<u8> = vec![42];
    shuffle(&mut one);
    assert_eq!(one, vec![42]);
}

#[test]
fn well_formedness_detects_faults() {
    // a pristine blank table is well formed
    let blank = || SolitareState {
        deck: vec![true; 52],
        targets: vec![0; 4],
        slots: (0..7).map(|_| Column { cards: Vec::new(), hidden: 0 }).collect(),
    };
    assert!(blank().is_well_formed());

    // a duplicated card (still in the reserve and on a column) is caught
    let mut dup = blank();
    dup.slots[0].cards.push(Card::from_suit_rank(0, 1).0);
    assert!(!dup.is_well_formed());

    // a lost card is caught
    let mut lost = blank();
    lost.deck[0] = false;
    assert!(!lost.is_well_formed());

    // a face-down count beyond the column length is caught
    let mut deep = blank();
    deep.slots[3].hidden = 1;
    assert!(!deep.is_well_formed());

    // a foundation counter beyond the king is caught
    let mut high = blank();
    high.targets[2] = 14;
    assert!(!high.is_well_formed());

    // an invalid card byte on a column is caught
    let mut junk = blank();
    junk.deck[0] = false;
    junk.slots[0].cards.push(0x70);
    assert!(!junk.is_well_formed());
}
