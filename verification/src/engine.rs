//! The move engine. It runs as a two-state machine: Idle (no selection) and
//! Armed (a source is chosen). A pick event either arms a selection,
//! executes a legal move, re-arms on a new source, or aborts. The move
//! semantics — which selections are valid, which transfers are legal, and
//! what a transfer does to the table — is stated by the spec functions here,
//! and the executable engine is proved to follow them exactly.

use vstd::prelude::*;

use crate::card::{
    card_of_index, card_ok, lemma_card_index_roundtrip, lemma_index_card_roundtrip,
    lemma_pack_fields, lemma_unpack_pack, spec_is_red, spec_pack, spec_rank, spec_suit, Card,
};
use crate::counting::{
    count_byte, count_true, count_true_upto, lemma_count_byte_singleton, lemma_count_byte_split,
    lemma_count_true_upto_strict,
};
use crate::solitare_state::{
    conserving, count_in_state, slots_count, table_shape, wf, ColView, Highlight, SolitareState,
    TableView,
};

verus! {

/// Outcome of handing one selection to the engine, for visual feedback:
/// the pick became the (new) source; a move was executed; the pick was
/// dropped and the engine returned to Idle; or a move was attempted and
/// found illegal.
#[derive(Debug, Clone, Copy, PartialEq, Eq, Structural)]
pub enum MoveOutcome {
    Armed,
    Executed,
    Aborted,
    Rejected,
}

/// The selection names a movable unit: a non-empty foundation, a present
/// reserve card, or a face-up tableau cell.
pub open spec fn valid_source(v: TableView, h: Highlight) -> bool {
    match h {
        Highlight::Target(s) => s < 4 && v.targets[s as int] > 0,
        Highlight::Deck(i) => (i as int) < count_true(v.deck),
        Highlight::Slot(c, r) => c < 7 && v.slots[c as int].hidden <= r as int
            && (r as int) < v.slots[c as int].cards.len(),
    }
}

/// The selection names a place a unit can be sent: any foundation, or the
/// top of any column (the row is ignored); never the reserve.
pub open spec fn valid_dest(h: Highlight) -> bool {
    match h {
        Highlight::Target(s) => s < 4,
        Highlight::Deck(_) => false,
        Highlight::Slot(c, _) => c < 7,
    }
}

/// Position of the i-th set bit of the reserve, in ascending index order.
pub open spec fn nth_true(s: Seq<bool>, i: int) -> int {
    choose|k: int| 0 <= k < s.len() && s[k] && count_true_upto(s, k) == i
}

proof fn lemma_nth_true_exists(s: Seq<bool>, n: int, i: int)
    requires
        0 <= n <= s.len(),
        0 <= i < count_true_upto(s, n),
    ensures
        exists|k: int| 0 <= k < s.len() && s[k] && count_true_upto(s, k) == i,
    decreases n,
{
    if n > 0 {
        if i < count_true_upto(s, n - 1) {
            lemma_nth_true_exists(s, n - 1, i);
        } else {
            assert(s[n - 1] && count_true_upto(s, n - 1) == i);
        }
    }
}

/// The i-th set bit exists, is set, and has exactly i set bits before it.
pub proof fn lemma_nth_true_props(s: Seq<bool>, i: int)
    requires
        0 <= i < count_true(s),
    ensures
        0 <= nth_true(s, i) < s.len(),
        s[nth_true(s, i)],
        count_true_upto(s, nth_true(s, i)) == i,
{
    lemma_nth_true_exists(s, s.len() as int, i);
}

/// Any position that is set with exactly i set bits before it is the i-th.
pub proof fn lemma_nth_true_unique(s: Seq<bool>, i: int, k: int)
    requires
        0 <= k < s.len(),
        s[k],
        count_true_upto(s, k) == i,
    ensures
        nth_true(s, i) == k,
{
    let k2 = nth_true(s, i);
    assert(0 <= k2 < s.len() && s[k2] && count_true_upto(s, k2) == i);
    if k < k2 {
        lemma_count_true_upto_strict(s, k, k2);
    } else if k2 < k {
        lemma_count_true_upto_strict(s, k2, k);
    }
}

/// The single card a source names — for a tableau cell, the bottom card of
/// the named run.
pub open spec fn moving_card(v: TableView, h: Highlight) -> u8
    recommends
        table_shape(v),
        valid_source(v, h),
{
    match h {
        Highlight::Target(s) => spec_pack(s, v.targets[s as int]),
        Highlight::Deck(i) => card_of_index(nth_true(v.deck, i as int)),
        Highlight::Slot(c, r) => v.slots[c as int].cards[r as int],
    }
}

/// Whether the source names a run of more than one card.
pub open spec fn is_multi(v: TableView, h: Highlight) -> bool {
    match h {
        Highlight::Slot(c, r) => (r as int) + 1 < v.slots[c as int].cards.len(),
        _ => false,
    }
}

/// The unit that moves: the run from the named row through the column top,
/// or the single named card.
pub open spec fn moving_run(v: TableView, h: Highlight) -> Seq<u8>
    recommends
        table_shape(v),
        valid_source(v, h),
{
    match h {
        Highlight::Slot(c, r) => v.slots[c as int].cards.skip(r as int),
        _ => seq![moving_card(v, h)],
    }
}

/// Legality of sending the unit named by `src` to `dst`. A foundation takes
/// a single card of the next rank of the card's own suit (the clicked
/// foundation's suit is immaterial). A column takes a unit whose bottom card
/// is a king if the column is empty, and otherwise one rank below and of the
/// opposite color to the column's top card. The reserve takes nothing. Note
/// that a foundation's top card is an ordinary source: this variant
/// deliberately lets a solved card return to the tableau.
pub open spec fn move_legal(v: TableView, src: Highlight, dst: Highlight) -> bool
    recommends
        table_shape(v),
        valid_source(v, src),
        valid_dest(dst),
{
    let card = moving_card(v, src);
    match dst {
        Highlight::Target(_) => !is_multi(v, src) && spec_rank(card) == v.targets[spec_suit(card) as int] + 1,
        Highlight::Deck(_) => false,
        Highlight::Slot(c, _) => {
            let col = v.slots[c as int];
            if col.cards.len() == 0 {
                spec_rank(card) == 13
            } else {
                spec_rank(card) + 1 == spec_rank(col.cards.last()) && spec_is_red(card)
                    != spec_is_red(col.cards.last())
            }
        },
    }
}

/// The automatic reveal: when a removal leaves only face-down cards on a
/// non-empty face-down prefix, exactly one card flips face up.
pub open spec fn reveal_adjust(hidden: nat, new_len: nat) -> nat {
    if hidden > 0 && hidden == new_len {
        (hidden - 1) as nat
    } else {
        hidden
    }
}

/// The table after taking the moving unit out of its source.
pub open spec fn remove_src(v: TableView, src: Highlight) -> TableView
    recommends
        table_shape(v),
        valid_source(v, src),
{
    match src {
        Highlight::Target(s) => TableView {
            deck: v.deck,
            targets: v.targets.update(s as int, (v.targets[s as int] - 1) as u8),
            slots: v.slots,
        },
        Highlight::Deck(i) => TableView {
            deck: v.deck.update(nth_true(v.deck, i as int), false),
            targets: v.targets,
            slots: v.slots,
        },
        Highlight::Slot(c, r) => {
            let col = v.slots[c as int];
            let newcol = ColView {
                cards: col.cards.take(r as int),
                hidden: reveal_adjust(col.hidden, r as nat),
            };
            TableView { deck: v.deck, targets: v.targets, slots: v.slots.update(c as int, newcol) }
        },
    }
}

/// The table after appending the moving unit to its destination.
pub open spec fn add_dst(v: TableView, run: Seq<u8>, dst: Highlight) -> TableView
    recommends
        table_shape(v),
        run.len() > 0,
        valid_dest(dst),
{
    match dst {
        Highlight::Target(_) => {
            let su = spec_suit(run[0]);
            TableView {
                deck: v.deck,
                targets: v.targets.update(su as int, (v.targets[su as int] + 1) as u8),
                slots: v.slots,
            }
        },
        Highlight::Deck(_) => v,
        Highlight::Slot(c, _) => {
            let col = v.slots[c as int];
            TableView {
                deck: v.deck,
                targets: v.targets,
                slots: v.slots.update(
                    c as int,
                    ColView { cards: col.cards + run, hidden: col.hidden },
                ),
            }
        },
    }
}

/// The table after a legal move: the unit leaves its source, then lands on
/// its destination.
pub open spec fn move_result(v: TableView, src: Highlight, dst: Highlight) -> TableView
    recommends
        table_shape(v),
        valid_source(v, src),
        valid_dest(dst),
        move_legal(v, src, dst),
{
    add_dst(remove_src(v, src), moving_run(v, src), dst)
}

impl SolitareState {
    /// Number of cards still in the reserve (the bitset's population count).
    pub fn deck_size(&self) -> (n: usize)
        ensures
            n as int == count_true(self@.deck),
    {
        let mut n: usize = 0;
        let mut k: usize = 0;
        let len = self.deck.len();
        while k < len
            invariant
                len == self@.deck.len(),
                k <= len,
                n <= k,
                n as int == count_true_upto(self@.deck, k as int),
            decreases len - k,
        {
            if self.deck[k] {
                n += 1;
            }
            k += 1;
        }
        n
    }

    /// Position (linear card index) of the i-th set reserve bit, ascending.
    pub fn nth_deck_index(&self, i: usize) -> (k: usize)
        requires
            self@.deck.len() == 52,
            (i as int) < count_true(self@.deck),
        ensures
            k < 52,
            self@.deck[k as int],
            count_true_upto(self@.deck, k as int) == i as int,
            k as int == nth_true(self@.deck, i as int),
    {
        let mut k: usize = 0;
        let mut cnt: usize = 0;
        while k < 52
            invariant
                self@.deck.len() == 52,
                k <= 52,
                cnt <= i,
                (i as int) < count_true(self@.deck),
                cnt as int == count_true_upto(self@.deck, k as int),
            decreases 52 - k,
        {
            if self.deck[k] {
                if cnt == i {
                    proof {
                        lemma_nth_true_unique(self@.deck, i as int, k as int);
                    }
                    return k;
                }
                cnt += 1;
            }
            k += 1;
        }
        proof {
            assert(false);
        }
        0
    }
}

/// The engine: the table plus the current selection (None while Idle).
#[derive(Debug, Clone)]
pub struct GameState {
    pub state: SolitareState,
    pub selected: Option<Highlight>,
}

/// Engine invariant: the table is well formed, and an armed selection is a
/// valid source of the current table.
pub open spec fn inv(g: GameState) -> bool {
    &&& wf(g.state@)
    &&& match g.selected {
        Some(src) => valid_source(g.state@, src),
        None => true,
    }
}

impl GameState {
    /// A fresh engine over a newly dealt table, with nothing selected.
    pub fn new() -> (g: GameState)
        ensures
            inv(g),
            g.selected is None,
            forall|t: int| 0 <= t < 4 ==> #[trigger] g.state@.targets[t] == 0,
            forall|c: int| 0 <= c < 7 ==> (#[trigger] g.state@.slots[c]).hidden == c,
            forall|c: int| 0 <= c < 7 ==> (#[trigger] g.state@.slots[c]).cards.len() == c + 1,
            count_true(g.state@.deck) == 24,
    {
        GameState { state: SolitareState::new(), selected: None }
    }

    /// An engine over a given well-formed table, with nothing selected.
    pub fn from_state(state: SolitareState) -> (g: GameState)
        requires
            wf(state@),
        ensures
            inv(g),
            g.state == state,
            g.selected is None,
    {
        GameState { state, selected: None }
    }

    /// The current selection, for highlight rendering.
    pub fn current_selection(&self) -> (r: Option<Highlight>)
        ensures
            r == self.selected,
    {
        self.selected
    }

    /// Drop any selection and return to Idle; the table is untouched.
    pub fn handle_cancel(&mut self)
        ensures
            final(self).state == old(self).state,
            final(self).selected is None,
    {
        self.selected = None;
    }

    /// Whether the selection is valid as a source and as a destination of
    /// the current table, in that order.
    pub fn is_selection_valid(&self, selection: Highlight) -> (r: [bool; 2])
        requires
            table_shape(self@),
        ensures
            r[0] == valid_source(self@, selection),
            r[1] == valid_dest(selection),
    {
        match selection {
            Highlight::Target(s) => {
                if s < 4 {
                    [self.state.targets[s as usize] > 0, true]
                } else {
                    [false, false]
                }
            },
            Highlight::Deck(i) => [(i as usize) < self.state.deck_size(), false],
            Highlight::Slot(c, r) => {
                if c < 7 {
                    let col = &self.state.slots[c as usize];
                    [col.hidden <= r as usize && (r as usize) < col.cards.len(), true]
                } else {
                    [false, false]
                }
            },
        }
    }
}

impl View for GameState {
    type V = TableView;

    open spec fn view(&self) -> TableView {
        self.state@
    }
}

/// A legal move preserves the table's shape constraints.
pub proof fn lemma_move_shape(v: TableView, src: Highlight, dst: Highlight)
    requires
        table_shape(v),
        valid_source(v, src),
        valid_dest(dst),
        move_legal(v, src, dst),
    ensures
        table_shape(move_result(v, src, dst)),
{
    let w = remove_src(v, src);
    let run = moving_run(v, src);
    let card = moving_card(v, src);
    match src {
        Highlight::Target(s) => {
            lemma_pack_fields(s, v.targets[s as int]);
        },
        Highlight::Deck(i) => {
            lemma_nth_true_props(v.deck, i as int);
            lemma_index_card_roundtrip(nth_true(v.deck, i as int));
        },
        Highlight::Slot(c, r) => {},
    }
    assert(card_ok(card));
    assert(run.len() > 0 && run[0] == card);
    assert(forall|q: int| 0 <= q < run.len() ==> card_ok(#[trigger] run[q]));
    assert(table_shape(w));
    if dst is Target {
        // a foundation never legally gives to a foundation
        if src is Target {
            assert(false);
        }
        assert(w.targets =~= v.targets);
        assert(run.len() == 1);
    }
    assert(table_shape(add_dst(w, run, dst)));
}

/// Conservation through a legal move: no card is created, destroyed or
/// duplicated — every card's occurrence count over reserve, foundations and
/// tableau is exactly what it was.
pub proof fn lemma_move_conserves(v: TableView, src: Highlight, dst: Highlight)
    requires
        table_shape(v),
        valid_source(v, src),
        valid_dest(dst),
        move_legal(v, src, dst),
    ensures
        forall|b: u8|
            #[trigger] count_in_state(move_result(v, src, dst), b) == count_in_state(v, b),
{
    let w = remove_src(v, src);
    let run = moving_run(v, src);
    let card = moving_card(v, src);
    match src {
        Highlight::Target(s) => {
            lemma_pack_fields(s, v.targets[s as int]);
        },
        Highlight::Deck(i) => {
            lemma_nth_true_props(v.deck, i as int);
            lemma_index_card_roundtrip(nth_true(v.deck, i as int));
        },
        Highlight::Slot(c, r) => {},
    }
    assert(card_ok(card));
    assert(run.len() > 0 && run[0] == card);

    // taking the unit out lowers each card's count by its count in the unit
    assert forall|b: u8| #[trigger] count_in_state(w, b) == count_in_state(v, b) - count_byte(
        run,
        b,
    ) by {
        match src {
            Highlight::Target(s) => {
                lemma_count_byte_singleton(card, b);
                lemma_pack_fields(s, v.targets[s as int]);
                if card_ok(b) {
                    lemma_unpack_pack(b);
                }
            },
            Highlight::Deck(i) => {
                let k = nth_true(v.deck, i as int);
                lemma_nth_true_props(v.deck, i as int);
                lemma_count_byte_singleton(card, b);
                lemma_index_card_roundtrip(k);
                if card_ok(b) {
                    lemma_card_index_roundtrip(b);
                }
            },
            Highlight::Slot(c, r) => {
                crate::solitare_state::lemma_slots_count_update(
                    v.slots,
                    c as int,
                    w.slots[c as int],
                    b,
                );
                lemma_count_byte_split(v.slots[c as int].cards, r as int, b);
            },
        }
    }

    // landing the unit raises each card's count by the same amount
    let u = add_dst(w, run, dst);
    assert forall|b: u8| #[trigger] count_in_state(u, b) == count_in_state(w, b) + count_byte(
        run,
        b,
    ) by {
        match dst {
            Highlight::Target(_) => {
                if src is Target {
                    assert(false);
                }
                assert(run.len() == 1);
                assert(run =~= seq![card]);
                assert(w.targets =~= v.targets);
                lemma_count_byte_singleton(card, b);
                assert(count_byte(run, b) == if card == b {
                    1int
                } else {
                    0int
                });
                lemma_unpack_pack(card);
                if card_ok(b) {
                    lemma_unpack_pack(b);
                }
            },
            Highlight::Deck(_) => {
                assert(false);
            },
            Highlight::Slot(c, _) => {
                crate::solitare_state::lemma_slots_count_update(
                    w.slots,
                    c as int,
                    u.slots[c as int],
                    b,
                );
                crate::counting::lemma_count_byte_append(w.slots[c as int].cards, run, b);
            },
        }
    }

    assert forall|b: u8| #[trigger] count_in_state(move_result(v, src, dst), b) == count_in_state(
        v,
        b,
    ) by {
        assert(count_in_state(u, b) == count_in_state(w, b) + count_byte(run, b));
    }
}

impl SolitareState {
    /// The moving unit a valid source names: its bottom card, and whether it
    /// is a run of more than one card.
    fn resolve_source(&self, src: Highlight) -> (out: (Card, bool))
        requires
            table_shape(self@),
            valid_source(self@, src),
        ensures
            out.0.0 == moving_card(self@, src),
            out.1 == is_multi(self@, src),
            card_ok(out.0.0),
    {
        match src {
            Highlight::Target(s) => {
                let t = self.targets[s as usize];
                (Card::from_suit_rank(s, t), false)
            },
            Highlight::Deck(i) => {
                let k = self.nth_deck_index(i as usize);
                (Card::from_index(k), false)
            },
            Highlight::Slot(c, r) => {
                let col = &self.slots[c as usize];
                let b = col.cards[r as usize];
                (Card(b), (r as usize) + 1 < col.cards.len())
            },
        }
    }

    /// Attempt to transfer the unit named by `src` onto `dst`. Returns
    /// whether the move was legal; exactly the legal moves mutate the table,
    /// to precisely the state the move semantics gives. Shape and card
    /// conservation are preserved.
    pub fn try_transfer(&mut self, src: Highlight, dst: Highlight) -> (legal: bool)
        requires
            table_shape(old(self)@),
            valid_source(old(self)@, src),
            valid_dest(dst),
        ensures
            legal == move_legal(old(self)@, src, dst),
            legal ==> final(self)@ == move_result(old(self)@, src, dst),
            !legal ==> *final(self) == *old(self),
            table_shape(final(self)@),
            conserving(old(self)@) ==> conserving(final(self)@),
    {
        let ghost v0 = self@;
        let (card, multi) = self.resolve_source(src);

        let legal: bool = match dst {
            Highlight::Target(_) => !multi && card.rank() == self.targets[card.suit() as usize]
                + 1,
            Highlight::Deck(_) => false,
            Highlight::Slot(c, _) => {
                let col = &self.slots[c as usize];
                let n = col.cards.len();
                if n == 0 {
                    card.rank() == 13
                } else {
                    let top = Card(col.cards[n - 1]);
                    card.rank() + 1 == top.rank() && (card.is_red() != top.is_red())
                }
            },
        };
        if !legal {
            return false;
        }
        proof {
            lemma_move_shape(v0, src, dst);
            lemma_move_conserves(v0, src, dst);
        }

        // the unit, bottom to top
        let mut run: Vec<u8> = Vec::new();
        match src {
            Highlight::Slot(c, r) => {
                let len = self.slots[c as usize].cards.len();
                let mut t = r as usize;
                while t < len
                    invariant
                        c < 7,
                        self@ == v0,
                        table_shape(v0),
                        len == v0.slots[c as int].cards.len(),
                        r as usize <= t <= len,
                        run@ =~= v0.slots[c as int].cards.subrange(r as int, t as int),
                    decreases len - t,
                {
                    let b = self.slots[c as usize].cards[t];
                    run.push(b);
                    t += 1;
                }
            },
            _ => {
                run.push(card.0);
            },
        }
        proof {
            assert(run@ =~= moving_run(v0, src));
        }
        let ghost runv = run@;
        let ghost w = remove_src(v0, src);

        // take the unit out of its source
        match src {
            Highlight::Target(s) => {
                let t = self.targets[s as usize];
                self.targets[s as usize] = t - 1;
            },
            Highlight::Deck(i) => {
                let k = self.nth_deck_index(i as usize);
                self.deck[k] = false;
            },
            Highlight::Slot(c, r) => {
                let col = &mut self.slots[c as usize];
                col.cards.truncate(r as usize);
                if col.hidden > 0 && col.hidden == col.cards.len() {
                    col.hidden = col.hidden - 1;
                }
            },
        }
        proof {
            assert(self@ =~~= w);
        }

        // land it on its destination
        match dst {
            Highlight::Target(_) => {
                proof {
                    if src is Target {
                        lemma_pack_fields(
                            src->Target_0,
                            v0.targets[src->Target_0 as int],
                        );
                        assert(false);
                    }
                }
                let su = card.suit();
                let t2 = self.targets[su as usize];
                self.targets[su as usize] = t2 + 1;
            },
            Highlight::Deck(_) => {
                proof {
                    assert(false);
                }
            },
            Highlight::Slot(c, _) => {
                let col = &mut self.slots[c as usize];
                col.cards.append(&mut run);
            },
        }
        proof {
            assert(self@ =~~= add_dst(w, runv, dst));
        }
        true
    }
}

/// The outcome a pick event produces: in Idle a valid source arms, anything
/// else aborts; in Armed a legal move onto a valid destination executes, an
/// illegal one onto a valid destination is rejected, and otherwise the pick
/// re-arms on a valid source or aborts.
pub open spec fn pick_outcome(v: TableView, sel: Option<Highlight>, h: Highlight) -> MoveOutcome {
    match sel {
        None => if valid_source(v, h) {
            MoveOutcome::Armed
        } else {
            MoveOutcome::Aborted
        },
        Some(src) => if valid_dest(h) && move_legal(v, src, h) {
            MoveOutcome::Executed
        } else if valid_dest(h) {
            MoveOutcome::Rejected
        } else if valid_source(v, h) {
            MoveOutcome::Armed
        } else {
            MoveOutcome::Aborted
        },
    }
}

/// The selection after a pick event: an executed move clears it; otherwise
/// the pick becomes the selection exactly when it is a valid source.
pub open spec fn pick_selected(v: TableView, sel: Option<Highlight>, h: Highlight) -> Option<
    Highlight,
> {
    match sel {
        None => if valid_source(v, h) {
            Some(h)
        } else {
            None
        },
        Some(src) => if valid_dest(h) && move_legal(v, src, h) {
            None
        } else if valid_source(v, h) {
            Some(h)
        } else {
            None
        },
    }
}

/// The table after a pick event: only an executed move changes it.
pub open spec fn pick_state(v: TableView, sel: Option<Highlight>, h: Highlight) -> TableView {
    match sel {
        Some(src) => if valid_dest(h) && move_legal(v, src, h) {
            move_result(v, src, h)
        } else {
            v
        },
        None => v,
    }
}

impl GameState {
    /// Handle a pick while a source is armed: attempt the move onto a valid
    /// destination, else re-arm or abort, per the transition relation.
    pub fn try_move(&mut self, selection: Highlight) -> (r: MoveOutcome)
        requires
            inv(*old(self)),
            old(self).selected is Some,
        ensures
            inv(*final(self)),
            r == pick_outcome(old(self).state@, old(self).selected, selection),
            final(self).selected == pick_selected(old(self).state@, old(self).selected, selection),
            final(self).state@ == pick_state(old(self).state@, old(self).selected, selection),
    {
        let src = match self.selected {
            Some(s) => s,
            None => {
                proof {
                    assert(false);
                }
                selection
            },
        };
        let valid = self.is_selection_valid(selection);
        if valid[1] {
            let legal = self.state.try_transfer(src, selection);
            if legal {
                self.selected = None;
                MoveOutcome::Executed
            } else {
                if valid[0] {
                    self.selected = Some(selection);
                } else {
                    self.selected = None;
                }
                MoveOutcome::Rejected
            }
        } else if valid[0] {
            self.selected = Some(selection);
            MoveOutcome::Armed
        } else {
            self.selected = None;
            MoveOutcome::Aborted
        }
    }

    /// Handle a pick event: in Idle, arm a valid source; in Armed, drive the
    /// move attempt. The engine invariant is preserved and the whole
    /// transition relation is met exactly.
    pub fn handle_pick(&mut self, selection: Highlight) -> (r: MoveOutcome)
        requires
            inv(*old(self)),
        ensures
            inv(*final(self)),
            r == pick_outcome(old(self).state@, old(self).selected, selection),
            final(self).selected == pick_selected(old(self).state@, old(self).selected, selection),
            final(self).state@ == pick_state(old(self).state@, old(self).selected, selection),
    {
        match self.selected {
            None => {
                let valid = self.is_selection_valid(selection);
                if valid[0] {
                    self.selected = Some(selection);
                    MoveOutcome::Armed
                } else {
                    MoveOutcome::Aborted
                }
            },
            Some(_) => self.try_move(selection),
        }
    }
}

impl SolitareState {
    /// Top rank of a suit's foundation, 0 when it is empty.
    pub fn foundation_top(&self, suit: u8) -> (r: u8)
        requires
            suit < 4,
            self@.targets.len() == 4,
        ensures
            r == self@.targets[suit as int],
    {
        self.targets[suit as usize]
    }

    /// The reserve as the ordered sequence of cards still present, ascending
    /// by linear index: element j is the card the selection Deck(j) names.
    pub fn reserve_cards(&self) -> (r: Vec<Card>)
        requires
            self@.deck.len() == 52,
        ensures
            r@.len() == count_true(self@.deck),
            forall|j: int|
                0 <= j < r@.len() ==> (#[trigger] r@[j]).0 == card_of_index(
                    nth_true(self@.deck, j),
                ),
    {
        let mut out: Vec<Card> = Vec::new();
        let mut k: usize = 0;
        while k < 52
            invariant
                self@.deck.len() == 52,
                k <= 52,
                out@.len() == count_true_upto(self@.deck, k as int),
                forall|j: int|
                    0 <= j < out@.len() ==> (#[trigger] out@[j]).0 == card_of_index(
                        nth_true(self@.deck, j),
                    ),
            decreases 52 - k,
        {
            if self.deck[k] {
                proof {
                    lemma_nth_true_unique(self@.deck, out@.len() as int, k as int);
                }
                out.push(Card::from_index(k));
            }
            k += 1;
        }
        out
    }

    /// Number of cards in a column.
    pub fn column_len(&self, c: u8) -> (n: usize)
        requires
            c < 7,
            self@.slots.len() == 7,
        ensures
            n == self@.slots[c as int].cards.len(),
    {
        self.slots[c as usize].cards.len()
    }

    /// Number of face-down cards at the bottom of a column.
    pub fn column_hidden(&self, c: u8) -> (n: usize)
        requires
            c < 7,
            self@.slots.len() == 7,
        ensures
            n as nat == self@.slots[c as int].hidden,
    {
        self.slots[c as usize].hidden
    }

    /// The card at a row of a column, and whether it lies face down.
    pub fn column_card(&self, c: u8, r: usize) -> (out: (Card, bool))
        requires
            c < 7,
            self@.slots.len() == 7,
            (r as int) < self@.slots[c as int].cards.len(),
        ensures
            out.0.0 == self@.slots[c as int].cards[r as int],
            out.1 == ((r as nat) < self@.slots[c as int].hidden),
    {
        let col = &self.slots[c as usize];
        (Card(col.cards[r]), r < col.hidden)
    }
}

} // verus!
