use solitare::card::Card;

#[test]
fn index_roundtrip_all_cards() {
    for i in 0..52 {
        let c = Card::from_index(i);
        assert_eq!(c.to_ind(), i);
        assert!(c.suit() < 4);
        assert!((1..=13).contains(&c.rank()));
    }
}

#[test]
fn suit_rank_roundtrip_all_cards() {
    for suit in 0..4u8 {
        for rank in 1..=13u8 {
            let c = Card::from_suit_rank(suit, rank);
            assert_eq!(c.suit(), suit);
            assert_eq!(c.rank(), rank);
            assert_eq!(c.to_ind(), suit as usize * 13 + rank as usize - 1);
        }
    }
}

#[test]
fn packing_example_heart_jack() {
    // suit in the high nibble, rank in the low nibble: heart jack is 0001 1011
    let c = Card::from_suit_rank(1, 11);
    assert_eq!(c.0, 0b0001_1011);
}

#[test]
fn colors_by_suit() {
    assert!(!Card::from_suit_rank(0, 5).is_red()); // spade
    assert!(Card::from_suit_rank(1, 5).is_red()); // heart
    assert!(!Card::from_suit_rank(2, 5).is_red()); // club
    assert!(Card::from_suit_rank(3, 5).is_red()); // diamond
}

#[test]
fn indices_are_distinct() {
    let mut seen = [false; 52];
    for suit in 0..4u8 {
        for rank in 1..=13u8 {
            let i = Card::from_suit_rank(suit, rank).to_ind();
            assert!(!seen[i]);
            seen[i] = true;
        }
    }
    assert!(seen.iter().all(|&x| x));
}

#[test]
fn highlight_keeps_card() {
    let c = Card::from_suit_rank(2, 9);
    let h = c.highlight(true);
    assert_eq!(h.0, c);
    assert!(h.1);
}
