use solitare::card::Card;
use solitare::engine::{GameState, MoveOutcome};
use solitare::solitare_state::{Column, Highlight, SolitareState};

/// All 52 cards in the reserve, nothing dealt: a well-formed blank table.
fn blank_table() -> SolitareState {
    SolitareState {
        deck: vec![true; 52],
        targets: vec![0; 4],
        slots: (0..7).map(|_| Column { cards: Vec::new(), hidden: 0 }).collect(),
    }
}

fn byte(suit: u8, rank: u8) -> u8 {
    Card::from_suit_rank(suit, rank).0
}

fn lin(suit: u8, rank: u8) -> usize {
    suit as usize * 13 + rank as usize - 1
}

/// Move a card from the reserve onto a column, by hand.
fn place_on_col(state: &mut SolitareState, suit: u8, rank: u8, col: usize) {
    assert!(state.deck[lin(suit, rank)]);
    state.deck[lin(suit, rank)] = false;
    state.slots[col].cards.push(byte(suit, rank));
}

/// Solve a suit up to the given rank, by hand.
fn solve_to(state: &mut SolitareState, suit: u8, upto: u8) {
    for r in 1..=upto {
        assert!(state.deck[lin(suit, r)]);
        state.deck[lin(suit, r)] = false;
    }
    state.targets[suit as usize] = upto;
}

/// Reserve selection index of a card currently in the reserve.
fn deck_pos(state: &SolitareState, suit: u8, rank: u8) -> u8 {
    let cards = state.reserve_cards();
    for (j, c) in cards.iter().enumerate() {
        if c.to_ind() == lin(suit, rank) {
            return j as u8;
        }
    }
    panic!("card not in reserve");
}

#[test]
fn empty_column_takes_only_kings() {
    // a jack is rejected; a king is accepted; a red queen then lands on it
    let state = blank_table();
    assert!(state.is_well_formed());
    let mut g = GameState::from_state(state);

    let jack = deck_pos(&g.state, 0, 11);
    assert_eq!(g.handle_pick(Highlight::Deck(jack)), MoveOutcome::Armed);
    assert_eq!(g.handle_pick(Highlight::Slot(0, 0)), MoveOutcome::Rejected);
    assert_eq!(g.state.column_len(0), 0);
    assert_eq!(g.current_selection(), None);

    let king = deck_pos(&g.state, 0, 13);
    assert_eq!(g.handle_pick(Highlight::Deck(king)), MoveOutcome::Armed);
    assert_eq!(g.handle_pick(Highlight::Slot(0, 0)), MoveOutcome::Executed);
    assert_eq!(g.state.column_len(0), 1);
    assert_eq!(g.state.column_hidden(0), 0);

    let queen = deck_pos(&g.state, 1, 12); // red queen on the black king
    assert_eq!(g.handle_pick(Highlight::Deck(queen)), MoveOutcome::Armed);
    assert_eq!(g.handle_pick(Highlight::Slot(0, 5)), MoveOutcome::Executed);
    assert_eq!(g.state.column_len(0), 2);
    assert!(g.state.is_well_formed());
}

#[test]
fn reserve_to_foundation() {
    // spades solved to 5; picking the 6 of spades then the foundation
    // raises the counter to 6 and clears the card's reserve bit
    let mut state = blank_table();
    solve_to(&mut state, 0, 5);
    assert!(state.is_well_formed());
    let mut g = GameState::from_state(state);

    let six = deck_pos(&g.state, 0, 6);
    assert_eq!(g.handle_pick(Highlight::Deck(six)), MoveOutcome::Armed);
    assert_eq!(g.handle_pick(Highlight::Target(0)), MoveOutcome::Executed);
    assert_eq!(g.state.foundation_top(0), 6);
    assert!(!g.state.deck[lin(0, 6)]);
    for suit in 1..4u8 {
        assert_eq!(g.state.foundation_top(suit), 0);
    }
    assert!(g.state.is_well_formed());
}

#[test]
fn foundation_takes_only_next_rank_single() {
    // hearts at 3: the 5 of hearts is rejected, the 4 of hearts accepted
    let mut state = blank_table();
    solve_to(&mut state, 1, 3);
    let mut g = GameState::from_state(state);

    let five = deck_pos(&g.state, 1, 5);
    assert_eq!(g.handle_pick(Highlight::Deck(five)), MoveOutcome::Armed);
    assert_eq!(g.handle_pick(Highlight::Target(1)), MoveOutcome::Rejected);
    assert_eq!(g.state.foundation_top(1), 3);

    let four = deck_pos(&g.state, 1, 4);
    assert_eq!(g.handle_pick(Highlight::Deck(four)), MoveOutcome::Armed);
    assert_eq!(g.handle_pick(Highlight::Target(1)), MoveOutcome::Executed);
    assert_eq!(g.state.foundation_top(1), 4);
}

#[test]
fn tableau_placement_needs_descending_alternating() {
    // top of column 0 is the red 7 of hearts
    let mut state = blank_table();
    place_on_col(&mut state, 1, 7, 0);
    assert!(state.is_well_formed());
    let mut g = GameState::from_state(state);

    // same color, right rank: rejected
    let six_d = deck_pos(&g.state, 3, 6);
    assert_eq!(g.handle_pick(Highlight::Deck(six_d)), MoveOutcome::Armed);
    assert_eq!(g.handle_pick(Highlight::Slot(0, 0)), MoveOutcome::Rejected);
    assert_eq!(g.state.column_len(0), 1);

    // opposite color, wrong rank: rejected
    let five_s = deck_pos(&g.state, 0, 5);
    assert_eq!(g.handle_pick(Highlight::Deck(five_s)), MoveOutcome::Armed);
    assert_eq!(g.handle_pick(Highlight::Slot(0, 0)), MoveOutcome::Rejected);
    assert_eq!(g.state.column_len(0), 1);

    // opposite color, one rank below: accepted
    let six_s = deck_pos(&g.state, 0, 6);
    assert_eq!(g.handle_pick(Highlight::Deck(six_s)), MoveOutcome::Armed);
    assert_eq!(g.handle_pick(Highlight::Slot(0, 0)), MoveOutcome::Executed);
    assert_eq!(g.state.column_len(0), 2);
    let (top, face_down) = g.state.column_card(0, 1);
    assert_eq!(top.to_ind(), lin(0, 6));
    assert!(!face_down);
    assert!(g.state.is_well_formed());
}

#[test]
fn run_to_foundation_always_rejected() {
    // spades at 1; column 0 holds the 2 of spades under the ace of hearts:
    // the run's bottom card would fit the foundation, the run never does
    let mut state = blank_table();
    solve_to(&mut state, 0, 1);
    place_on_col(&mut state, 0, 2, 0);
    place_on_col(&mut state, 1, 1, 0);
    assert!(state.is_well_formed());
    let mut g = GameState::from_state(state);

    assert_eq!(g.handle_pick(Highlight::Slot(0, 0)), MoveOutcome::Armed);
    assert_eq!(g.handle_pick(Highlight::Target(0)), MoveOutcome::Rejected);
    assert_eq!(g.state.foundation_top(0), 1);
    assert_eq!(g.state.column_len(0), 2);

    // the rejection re-armed on the picked foundation (a valid source);
    // picking the top ace now attempts ace-of-spades onto the column and is
    // rejected too, re-arming on the ace
    assert_eq!(g.handle_pick(Highlight::Slot(0, 1)), MoveOutcome::Rejected);
    assert_eq!(g.current_selection(), Some(Highlight::Slot(0, 1)));
    // the single top card, an ace, does reach its own foundation
    assert_eq!(g.handle_pick(Highlight::Target(1)), MoveOutcome::Executed);
    assert_eq!(g.state.foundation_top(1), 1);
    assert_eq!(g.state.column_len(0), 1);
    assert!(g.state.is_well_formed());
}

#[test]
fn multi_card_run_moves_whole() {
    // column 0: red 9 over black 8; column 1: black 10 on top — the run of
    // two lands on the 10 in order
    let mut state = blank_table();
    place_on_col(&mut state, 1, 9, 0);
    place_on_col(&mut state, 0, 8, 0);
    place_on_col(&mut state, 2, 10, 1);
    assert!(state.is_well_formed());
    let mut g = GameState::from_state(state);

    assert_eq!(g.handle_pick(Highlight::Slot(0, 0)), MoveOutcome::Armed);
    assert_eq!(g.handle_pick(Highlight::Slot(1, 0)), MoveOutcome::Executed);
    assert_eq!(g.state.column_len(0), 0);
    assert_eq!(g.state.column_len(1), 3);
    assert_eq!(g.state.column_card(1, 0).0.to_ind(), lin(2, 10));
    assert_eq!(g.state.column_card(1, 1).0.to_ind(), lin(1, 9));
    assert_eq!(g.state.column_card(1, 2).0.to_ind(), lin(0, 8));
    assert!(g.state.is_well_formed());
}

#[test]
fn reveal_on_emptied_face_up_region() {
    // column 0: one face-down card under the black king; moving the king
    // away flips the hidden card
    let mut state = blank_table();
    place_on_col(&mut state, 3, 4, 0);
    place_on_col(&mut state, 0, 13, 0);
    state.slots[0].hidden = 1;
    assert!(state.is_well_formed());
    let mut g = GameState::from_state(state);

    assert_eq!(g.handle_pick(Highlight::Slot(0, 1)), MoveOutcome::Armed);
    assert_eq!(g.handle_pick(Highlight::Slot(1, 0)), MoveOutcome::Executed);
    assert_eq!(g.state.column_len(0), 1);
    assert_eq!(g.state.column_hidden(0), 0);
    assert_eq!(g.state.column_len(1), 1);
    assert!(g.state.is_well_formed());
}

#[test]
fn no_reveal_while_face_up_cards_remain() {
    // column 0: a face-down card, a red 9, a black king on top; moving the
    // king leaves a face-up 9, so nothing flips
    let mut state = blank_table();
    place_on_col(&mut state, 3, 4, 0);
    place_on_col(&mut state, 1, 9, 0);
    place_on_col(&mut state, 0, 13, 0);
    state.slots[0].hidden = 1;
    let mut g = GameState::from_state(state);

    assert_eq!(g.handle_pick(Highlight::Slot(0, 2)), MoveOutcome::Armed);
    assert_eq!(g.handle_pick(Highlight::Slot(1, 0)), MoveOutcome::Executed);
    assert_eq!(g.state.column_len(0), 2);
    assert_eq!(g.state.column_hidden(0), 1);
}

#[test]
fn foundation_gives_back_to_tableau() {
    // spades at 6, a red 7 on column 0: the 6 of spades returns to the
    // tableau and the counter drops by one
    let mut state = blank_table();
    solve_to(&mut state, 0, 6);
    place_on_col(&mut state, 1, 7, 0);
    let mut g = GameState::from_state(state);

    assert_eq!(g.handle_pick(Highlight::Target(0)), MoveOutcome::Armed);
    assert_eq!(g.handle_pick(Highlight::Slot(0, 0)), MoveOutcome::Executed);
    assert_eq!(g.state.foundation_top(0), 5);
    assert_eq!(g.state.column_len(0), 2);
    assert_eq!(g.state.column_card(0, 1).0.to_ind(), lin(0, 6));
    assert!(g.state.is_well_formed());
}

#[test]
fn selection_protocol() {
    let mut state = blank_table();
    place_on_col(&mut state, 1, 7, 0);
    let mut g = GameState::from_state(state);

    // idle: an empty column is no source
    assert_eq!(g.handle_pick(Highlight::Slot(1, 0)), MoveOutcome::Aborted);
    assert_eq!(g.current_selection(), None);
    // idle: an empty foundation is no source
    assert_eq!(g.handle_pick(Highlight::Target(2)), MoveOutcome::Aborted);
    // arm a reserve card, then re-arm on another source
    let a = deck_pos(&g.state, 0, 1);
    assert_eq!(g.handle_pick(Highlight::Deck(a)), MoveOutcome::Armed);
    assert_eq!(g.current_selection(), Some(Highlight::Deck(a)));
    assert_eq!(g.handle_pick(Highlight::Slot(0, 0)), MoveOutcome::Rejected);
    // the rejected destination was itself a valid source: it is re-armed
    assert_eq!(g.current_selection(), Some(Highlight::Slot(0, 0)));
    // cancel drops the selection and touches nothing
    g.handle_cancel();
    assert_eq!(g.current_selection(), None);
    assert_eq!(g.state.column_len(0), 1);
    // armed on a reserve card, picking the reserve aborts (no destination)
    assert_eq!(g.handle_pick(Highlight::Deck(a)), MoveOutcome::Armed);
    assert_eq!(g.handle_pick(Highlight::Deck(200)), MoveOutcome::Aborted);
    assert_eq!(g.current_selection(), None);
}

#[test]
fn reserve_selection_addresses_ith_set_bit() {
    let mut state = blank_table();
    // remove the first three spades; Deck(0) now names the 4 of spades
    solve_to(&mut state, 0, 3);
    let g = GameState::from_state(state);
    let cards = g.state.reserve_cards();
    assert_eq!(cards.len(), 49);
    assert_eq!(cards[0].to_ind(), lin(0, 4));
    assert_eq!(cards[48].to_ind(), lin(3, 13));
}

#[test]
fn conservation_across_many_moves() {
    let mut g = GameState::new();
    assert!(g.state.is_well_formed());
    // throw every selection kind at the engine; whatever the outcomes, the
    // table stays well formed (all 52 cards, each exactly once)
    for step in 0..200u32 {
        let pick = match step % 5 {
            0 => Highlight::Deck((step % 24) as u8),
            1 => Highlight::Slot((step % 7) as u8, (step % 13) as u8),
            2 => Highlight::Target((step % 4) as u8),
            3 => Highlight::Slot((step % 7) as u8, 0),
            _ => Highlight::Deck((step % 52) as u8),
        };
        g.handle_pick(pick);
    }
    assert!(g.state.is_well_formed());
}
