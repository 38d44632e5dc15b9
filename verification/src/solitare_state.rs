//! The table state: four foundations (one counter per suit), seven tableau
//! columns (a card sequence plus a face-down count each), and the reserve,
//! a 52-entry bitset over linear card indices. Well-formedness says the
//! shape constraints hold and every one of the 52 cards sits in exactly one
//! place. The deal generator builds such a state from a shuffled deck.

use vstd::prelude::*;

use crate::card::{
    card_of_index, card_ok, lemma_card_index_roundtrip, lemma_index_card_roundtrip, lin_index,
    spec_rank, spec_suit, Card,
};
use crate::counting::{
    count_byte, count_true, count_true_upto, lemma_count_byte_at, lemma_count_byte_nonneg,
    lemma_count_byte_one_elsewhere_zero, lemma_count_byte_push, lemma_count_byte_split,
    lemma_count_true_upto_update,
};

verus! {

/// Number of tableau columns.
pub const N_COLS: usize = 7;

/// Abstract value of one tableau column: its cards from bottom to top, and
/// how many of the leading cards lie face down.
#[verifier::ext_equal]
pub ghost struct ColView {
    pub cards: Seq<u8>,
    pub hidden: nat,
}

/// Abstract value of the whole table.
#[verifier::ext_equal]
pub ghost struct TableView {
    pub deck: Seq<bool>,
    pub targets: Seq<u8>,
    pub slots: Seq<ColView>,
}

/// One tableau column: cards from bottom to top, and the number of leading
/// face-down cards. Cards at rows below `hidden` are not addressable.
#[derive(Debug, Clone)]
pub struct Column {
    pub cards: Vec<u8>,
    pub hidden: usize,
}

impl View for Column {
    type V = ColView;

    open spec fn view(&self) -> ColView {
        ColView { cards: self.cards@, hidden: self.hidden as nat }
    }
}

/// View of a sequence of columns.
pub open spec fn cols_view(s: Seq<Column>) -> Seq<ColView> {
    Seq::new(s.len(), |i: int| s[i]@)
}

/// The table: `deck` is the reserve bitset (bit at a card's linear index is
/// set iff the card is still undealt), `targets` the per-suit foundation
/// counters, `slots` the tableau columns.
#[derive(Debug, Clone)]
pub struct SolitareState {
    pub deck: Vec<bool>,
    pub targets: Vec<u8>,
    pub slots: Vec<Column>,
}

impl View for SolitareState {
    type V = TableView;

    open spec fn view(&self) -> TableView {
        TableView { deck: self.deck@, targets: self.targets@, slots: cols_view(self.slots@) }
    }
}

/// Reserve's contribution to a card's occurrence count: one iff its bit is set.
pub open spec fn reserve_count(deck: Seq<bool>, b: u8) -> int
    recommends
        deck.len() == 52,
{
    if card_ok(b) && deck[lin_index(b)] {
        1
    } else {
        0
    }
}

/// Foundations' contribution: a card is solved iff its rank is at most its
/// suit's counter (the foundation holds the implied run 1..=counter).
pub open spec fn target_count(targets: Seq<u8>, b: u8) -> int
    recommends
        targets.len() == 4,
{
    if card_ok(b) && spec_rank(b) <= targets[spec_suit(b) as int] {
        1
    } else {
        0
    }
}

/// Tableau's contribution: occurrences of the card over all columns.
pub open spec fn slots_count(slots: Seq<ColView>, b: u8) -> int
    decreases slots.len(),
{
    if slots.len() == 0 {
        0
    } else {
        count_byte(slots[0].cards, b) + slots_count(slots.drop_first(), b)
    }
}

/// Total occurrences of a card across reserve, foundations and tableau.
pub open spec fn count_in_state(v: TableView, b: u8) -> int {
    reserve_count(v.deck, b) + target_count(v.targets, b) + slots_count(v.slots, b)
}

/// Shape constraints of one column: the face-down prefix fits, and every
/// entry is a valid card byte.
pub open spec fn col_ok(c: ColView) -> bool {
    &&& c.hidden <= c.cards.len()
    &&& forall|r: int| 0 <= r < c.cards.len() ==> card_ok(#[trigger] c.cards[r])
}

/// Shape constraints of the table.
pub open spec fn table_shape(v: TableView) -> bool {
    &&& v.deck.len() == 52
    &&& v.targets.len() == 4
    &&& v.slots.len() == N_COLS as int
    &&& forall|s: int| 0 <= s < 4 ==> #[trigger] v.targets[s] <= 13
    &&& forall|c: int| 0 <= c < N_COLS as int ==> col_ok(#[trigger] v.slots[c])
}

/// Conservation: every one of the 52 cards appears in exactly one place.
pub open spec fn conserving(v: TableView) -> bool {
    forall|b: u8| card_ok(b) ==> #[trigger] count_in_state(v, b) == 1
}

/// Well-formedness of the table: shape plus conservation. Established by the
/// deal and preserved by every move.
pub open spec fn wf(v: TableView) -> bool {
    table_shape(v) && conserving(v)
}

/// Replacing one column changes the tableau count by that column's difference.
pub proof fn lemma_slots_count_update(slots: Seq<ColView>, i: int, c: ColView, b: u8)
    requires
        0 <= i < slots.len(),
    ensures
        slots_count(slots.update(i, c), b) == slots_count(slots, b) - count_byte(
            slots[i].cards,
            b,
        ) + count_byte(c.cards, b),
    decreases slots.len(),
{
    if i == 0 {
        assert(slots.update(0, c).drop_first() =~= slots.drop_first());
    } else {
        lemma_slots_count_update(slots.drop_first(), i - 1, c, b);
        assert(slots.update(i, c).drop_first() =~= slots.drop_first().update(i - 1, c));
    }
}

/// Appending a column adds its count.
pub proof fn lemma_slots_count_push(slots: Seq<ColView>, c: ColView, b: u8)
    ensures
        slots_count(slots.push(c), b) == slots_count(slots, b) + count_byte(c.cards, b),
    decreases slots.len(),
{
    if slots.len() == 0 {
        assert(slots.push(c).drop_first() =~= Seq::<ColView>::empty());
        assert(slots_count(Seq::<ColView>::empty(), b) == 0);
        assert(slots.push(c)[0] == c);
    } else {
        lemma_slots_count_push(slots.drop_first(), c, b);
        assert(slots.push(c).drop_first() =~= slots.drop_first().push(c));
        assert(slots.push(c)[0] == slots[0]);
    }
}

/// A deck sequence holding every one of the 52 cards exactly once.
pub open spec fn full_deck(s: Seq<u8>) -> bool {
    &&& s.len() == 52
    &&& forall|b: u8|
        #[trigger] count_byte(s, b) == if card_ok(b) {
            1int
        } else {
            0int
        }
}

/// In a full deck every entry is a valid card byte.
pub proof fn lemma_full_deck_valid(s: Seq<u8>)
    requires
        full_deck(s),
    ensures
        forall|i: int| 0 <= i < s.len() ==> card_ok(#[trigger] s[i]),
{
    assert forall|i: int| 0 <= i < s.len() implies card_ok(#[trigger] s[i]) by {
        lemma_count_byte_at(s, i, s[i]);
    }
}

/// Relies on rand::random_range: a sample drawn uniformly from the given
/// half-open range; it panics only when the range is empty.
#[verifier::external_body]
fn random_below(lo: usize, hi: usize) -> (r: usize)
    requires
        lo < hi,
    ensures
        lo <= r < hi,
{
    rand::random_range(lo..hi)
}

/// Shuffle the bytes in place (Fisher–Yates): each position is swapped with
/// a uniformly chosen position at or after it. The result holds exactly the
/// same bytes with the same multiplicities.
pub fn shuffle(data: &mut Vec<u8>)
    ensures
        final(data)@.len() == old(data)@.len(),
        forall|b: u8| #[trigger] count_byte(final(data)@, b) == count_byte(old(data)@, b),
{
    let n = data.len();
    let mut i: usize = 0;
    while i < n
        invariant
            data@.len() == n,
            i <= n,
            forall|b: u8| #[trigger] count_byte(data@, b) == count_byte(old(data)@, b),
        decreases n - i,
    {
        let j = random_below(i, n);
        let ghost s = data@;
        let a = data[i];
        let bj = data[j];
        data[i] = bj;
        data[j] = a;
        proof {
            assert forall|b: u8| #[trigger] count_byte(data@, b) == count_byte(s, b) by {
                crate::counting::lemma_count_byte_update(s, i as int, bj, b);
                crate::counting::lemma_count_byte_update(s.update(i as int, bj), j as int, a, b);
            }
        }
        i += 1;
    }
}

/// Build the 52 cards in canonical linear-index order, then shuffle them.
/// The result is a full deck: every card exactly once.
pub fn shuffled_deck() -> (r: Vec<u8>)
    ensures
        full_deck(r@),
{
    let mut deck: Vec<u8> = Vec::new();
    let mut i: usize = 0;
    while i < 52
        invariant
            deck@.len() == i as int,
            i <= 52,
            forall|b: u8|
                #[trigger] count_byte(deck@, b) == if card_ok(b) && lin_index(b) < i as int {
                    1int
                } else {
                    0int
                },
        decreases 52 - i,
    {
        let c = Card::from_index(i);
        let ghost before = deck@;
        deck.push(c.0);
        proof {
            lemma_index_card_roundtrip(i as int);
            assert forall|b: u8|
                #[trigger] count_byte(deck@, b) == if card_ok(b) && lin_index(b) < i as int + 1 {
                    1int
                } else {
                    0int
                } by {
                lemma_count_byte_push(before, c.0, b);
                if card_ok(b) && b != c.0 && lin_index(b) == i as int {
                    lemma_card_index_roundtrip(b);
                }
            }
        }
        i += 1;
    }
    shuffle(&mut deck);
    deck
}

/// Index in the dealt sequence where column `c`'s cards begin: columns are
/// filled left to right, column `c` taking `c + 1` consecutive cards.
pub open spec fn col_start(c: int) -> int
    decreases c,
{
    if c <= 0 {
        0
    } else {
        col_start(c - 1) + c
    }
}

/// The concrete start positions of the seven columns, and the end of the deal.
pub proof fn lemma_col_start_vals()
    ensures
        col_start(0) == 0,
        col_start(1) == 1,
        col_start(2) == 3,
        col_start(3) == 6,
        col_start(4) == 10,
        col_start(5) == 15,
        col_start(6) == 21,
        col_start(7) == 28,
{
    assert(col_start(0) == 0);
    assert(col_start(1) == 1);
    assert(col_start(2) == 3);
    assert(col_start(3) == 6);
    assert(col_start(4) == 10);
    assert(col_start(5) == 15);
    assert(col_start(6) == 21);
    assert(col_start(7) == 28);
}

/// Deal a full deck into the initial layout: column `c` receives the
/// `c + 1` cards at positions `col_start(c)..col_start(c + 1)`, its first
/// `c` face down; the 24 cards after position 28 fill the reserve; all
/// foundations start empty. Deterministic in the given deck.
pub fn from_deck(deck: &Vec<u8>) -> (s: SolitareState)
    requires
        full_deck(deck@),
    ensures
        wf(s@),
        forall|t: int| 0 <= t < 4 ==> #[trigger] s@.targets[t] == 0,
        forall|c: int| 0 <= c < 7 ==> (#[trigger] s@.slots[c]).hidden == c,
        forall|c: int|
            0 <= c < 7 ==> (#[trigger] s@.slots[c]).cards =~= deck@.subrange(
                col_start(c),
                col_start(c) + c + 1,
            ),
        forall|c: int| 0 <= c < 7 ==> (#[trigger] s@.slots[c]).cards.len() == c + 1,
        forall|k: int|
            0 <= k < 52 ==> ((#[trigger] s@.deck[k]) <==> count_byte(
                deck@.skip(28),
                card_of_index(k),
            ) == 1),
        count_true(s@.deck) == 24,
{
    proof {
        lemma_full_deck_valid(deck@);
    }
    let mut slots: Vec<Column> = Vec::new();
    let mut cur: usize = 0;
    let mut c: usize = 0;
    while c < N_COLS
        invariant
            full_deck(deck@),
            c <= N_COLS,
            slots@.len() == c as int,
            cur as int == col_start(c as int),
            cur <= 28,
            forall|cc: int| 0 <= cc < c as int ==> (#[trigger] cols_view(slots@)[cc]).hidden == cc,
            forall|cc: int|
                0 <= cc < c as int ==> (#[trigger] cols_view(slots@)[cc]).cards =~= deck@.subrange(
                    col_start(cc),
                    col_start(cc) + cc + 1,
                ),
            forall|b: u8|
                #[trigger] slots_count(cols_view(slots@), b) == count_byte(
                    deck@.take(cur as int),
                    b,
                ),
        decreases N_COLS - c,
    {
        let ghost cur0 = cur as int;
        proof {
            lemma_col_start_vals();
            assert(col_start(c as int + 1) == col_start(c as int) + c as int + 1);
            assert(cur + c + 1 <= 28);
        }
        let mut cards: Vec<u8> = Vec::new();
        let mut t: usize = 0;
        while t < c + 1
            invariant
                full_deck(deck@),
                c < N_COLS,
                t <= c + 1,
                cur as int == col_start(c as int),
                cur + c + 1 <= 28,
                cards@ =~= deck@.subrange(cur as int, cur as int + t as int),
            decreases c + 1 - t,
        {
            cards.push(deck[cur + t]);
            t += 1;
        }
        let ghost before = cols_view(slots@);
        let col = Column { cards, hidden: c };
        slots.push(col);
        proof {
            assert(cols_view(slots@) =~= before.push(col@));
            assert forall|b: u8|
                #[trigger] slots_count(cols_view(slots@), b) == count_byte(
                    deck@.take(cur0 + c as int + 1),
                    b,
                ) by {
                lemma_slots_count_push(before, col@, b);
                lemma_count_byte_split(deck@.take(cur0 + c as int + 1), cur0, b);
                assert(deck@.take(cur0 + c as int + 1).take(cur0) =~= deck@.take(cur0));
                assert(deck@.take(cur0 + c as int + 1).skip(cur0) =~= deck@.subrange(
                    cur0,
                    cur0 + c as int + 1,
                ));
            }
        }
        cur = cur + c + 1;
        c += 1;
    }
    assert(cur == 28) by {
        lemma_col_start_vals();
    }

    let mut bits: Vec<bool> = vec![false; 52];
    proof {
        crate::counting::lemma_count_true_upto_false(bits@, 52);
        assert(deck@.subrange(28, 28).len() == 0);
    }
    let mut m: usize = 28;
    while m < 52
        invariant
            full_deck(deck@),
            28 <= m <= 52,
            bits@.len() == 52,
            forall|b: u8|
                card_ok(b) ==> ((#[trigger] bits@[lin_index(b)]) <==> count_byte(
                    deck@.subrange(28, m as int),
                    b,
                ) == 1),
            count_true(bits@) == m as int - 28,
        decreases 52 - m,
    {
        let bm = Card(deck[m]);
        proof {
            lemma_full_deck_valid(deck@);
        }
        let k = bm.to_ind();
        let ghost bits0 = bits@;
        proof {
            lemma_count_byte_one_elsewhere_zero(deck@, m as int, 28, m as int, bm.0);
            assert(!bits0[k as int]);
        }
        bits[k] = true;
        proof {
            lemma_count_true_upto_update(bits0, k as int, true, 52);
            assert(deck@.subrange(28, m as int + 1) =~= deck@.subrange(28, m as int).push(bm.0));
            assert forall|b: u8| card_ok(b) implies ((#[trigger] bits@[lin_index(b)]) <==> count_byte(
                deck@.subrange(28, m as int + 1),
                b,
            ) == 1) by {
                lemma_count_byte_push(deck@.subrange(28, m as int), bm.0, b);
                if b != bm.0 && lin_index(b) == k as int {
                    lemma_card_index_roundtrip(b);
                    lemma_card_index_roundtrip(bm.0);
                }
                lemma_count_byte_nonneg(deck@.subrange(28, m as int), b);
            }
        }
        m += 1;
    }

    let targets: Vec<u8> = vec![0u8; 4];
    let s = SolitareState { deck: bits, targets, slots };
    proof {
        assert forall|b: u8| card_ok(b) implies #[trigger] count_in_state(s@, b) == 1 by {
            lemma_count_byte_split(deck@, 28, b);
            assert(reserve_count(s@.deck, b) == count_byte(deck@.skip(28), b)) by {
                lemma_card_index_roundtrip(b);
                assert(deck@.subrange(28, 52) =~= deck@.skip(28));
                lemma_count_byte_nonneg(deck@.skip(28), b);
                lemma_count_byte_nonneg(deck@.take(28), b);
            }
            assert(target_count(s@.targets, b) == 0);
        }
        lemma_col_start_vals();
        assert forall|c0: int| 0 <= c0 < 7 implies col_start(c0) >= 0 && col_start(c0) + c0 + 1
            <= 28 by {
            assert(c0 == 0 || c0 == 1 || c0 == 2 || c0 == 3 || c0 == 4 || c0 == 5 || c0 == 6);
        }
        assert(forall|c0: int| 0 <= c0 < 7 ==> col_ok(#[trigger] s@.slots[c0]));
        assert forall|k: int| 0 <= k < 52 implies ((#[trigger] s@.deck[k]) <==> count_byte(
            deck@.skip(28),
            card_of_index(k),
        ) == 1) by {
            lemma_index_card_roundtrip(k);
            assert(deck@.subrange(28, 52) =~= deck@.skip(28));
        }
    }
    s
}

impl SolitareState {
    /// Deal a fresh game from a newly shuffled deck.
    pub fn new() -> (s: SolitareState)
        ensures
            wf(s@),
            forall|t: int| 0 <= t < 4 ==> #[trigger] s@.targets[t] == 0,
            forall|c: int| 0 <= c < 7 ==> (#[trigger] s@.slots[c]).hidden == c,
            forall|c: int| 0 <= c < 7 ==> (#[trigger] s@.slots[c]).cards.len() == c + 1,
            count_true(s@.deck) == 24,
    {
        let deck = shuffled_deck();
        from_deck(&deck)
    }

    /// Pair the state with a selection for the view layer to highlight.
    pub fn highlight(self, highlight: Highlight) -> (r: HighlightedSolitareState)
        ensures
            r.0 == self,
            r.1 == highlight,
    {
        HighlightedSolitareState(self, highlight)
    }
}

/// A selection: a foundation (by suit), the i-th reserve card (0-based, in
/// ascending linear-index order among the cards still present), or a tableau
/// cell (column, row). Used both to name a source and a destination.
#[derive(Debug, Clone, Copy, PartialEq, Eq, Structural)]
pub enum Highlight {
    Target(u8),
    Deck(u8),
    Slot(u8, u8),
}

/// A table state paired with a selection to highlight.
#[derive(Debug, Clone)]
pub struct HighlightedSolitareState(pub SolitareState, pub Highlight);

/// The tableau count is never negative.
pub proof fn lemma_slots_count_nonneg(slots: Seq<ColView>, b: u8)
    ensures
        0 <= slots_count(slots, b),
    decreases slots.len(),
{
    if slots.len() > 0 {
        lemma_count_byte_nonneg(slots[0].cards, b);
        lemma_slots_count_nonneg(slots.drop_first(), b);
    }
}

impl SolitareState {
    /// How often the card occurs across reserve, foundations and tableau,
    /// saturated at 2 (anything at or above 2 already breaks conservation).
    fn count_card_capped(&self, b: Card) -> (cnt: usize)
        requires
            table_shape(self@),
            card_ok(b.0),
        ensures
            ({
                let n = count_in_state(self@, b.0);
                cnt as int == if n < 2 {
                    n
                } else {
                    2int
                }
            }),
    {
        proof {
            lemma_card_index_roundtrip(b.0);
        }
        let mut cnt: usize = 0;
        let k = b.to_ind();
        if self.deck[k] {
            cnt = 1;
        }
        assert(cnt as int == reserve_count(self@.deck, b.0));
        let su = b.suit();
        if b.rank() <= self.targets[su as usize] {
            cnt += 1;
        }
        assert(cnt as int == reserve_count(self@.deck, b.0) + target_count(self@.targets, b.0));
        let ghost base = cnt as int;
        let mut c: usize = 0;
        while c < 7
            invariant
                table_shape(self@),
                c <= 7,
                base == reserve_count(self@.deck, b.0) + target_count(self@.targets, b.0),
                0 <= base <= 2,
                cnt as int == ({
                    let p = base + slots_count(self@.slots.take(c as int), b.0);
                    if p < 2 {
                        p
                    } else {
                        2int
                    }
                }),
            decreases 7 - c,
        {
            let col = &self.slots[c];
            let len = col.cards.len();
            let ghost taken = self@.slots.take(c as int);
            let mut rr: usize = 0;
            while rr < len
                invariant
                    table_shape(self@),
                    c < 7,
                    rr <= len,
                    len == self@.slots[c as int].cards.len(),
                    col@ == self@.slots[c as int],
                    base == reserve_count(self@.deck, b.0) + target_count(self@.targets, b.0),
                    0 <= base <= 2,
                    taken == self@.slots.take(c as int),
                    cnt as int == ({
                        let p = base + slots_count(taken, b.0) + count_byte(
                            col@.cards.take(rr as int),
                            b.0,
                        );
                        if p < 2 {
                            p
                        } else {
                            2int
                        }
                    }),
                decreases len - rr,
            {
                proof {
                    lemma_slots_count_nonneg(taken, b.0);
                    lemma_count_byte_nonneg(col@.cards.take(rr as int), b.0);
                    assert(col@.cards.take(rr as int + 1) =~= col@.cards.take(rr as int).push(
                        col@.cards[rr as int],
                    ));
                    lemma_count_byte_push(col@.cards.take(rr as int), col@.cards[rr as int], b.0);
                }
                if col.cards[rr] == b.0 {
                    if cnt < 2 {
                        cnt += 1;
                    }
                }
                rr += 1;
            }
            proof {
                assert(col@.cards.take(len as int) =~= col@.cards);
                assert(self@.slots.take(c as int + 1) =~= taken.push(self@.slots[c as int]));
                lemma_slots_count_push(taken, self@.slots[c as int], b.0);
            }
            c += 1;
        }
        proof {
            assert(self@.slots.take(7) =~= self@.slots);
        }
        cnt
    }

    /// Runtime well-formedness check, exactly the predicate `wf`: the shape
    /// constraints hold and every one of the 52 cards occurs exactly once.
    /// An observed violation is an internal-consistency fault of the caller's
    /// making, to be failed fast, never a recoverable game condition.
    pub fn is_well_formed(&self) -> (r: bool)
        ensures
            r == wf(self@),
    {
        if self.deck.len() != 52 || self.targets.len() != 4 || self.slots.len() != 7 {
            return false;
        }
        let mut s: usize = 0;
        while s < 4
            invariant
                self@.targets.len() == 4,
                s <= 4,
                forall|j: int| 0 <= j < s as int ==> #[trigger] self@.targets[j] <= 13,
            decreases 4 - s,
        {
            if self.targets[s] > 13 {
                return false;
            }
            s += 1;
        }
        let mut c: usize = 0;
        while c < 7
            invariant
                self@.deck.len() == 52,
                self@.targets.len() == 4,
                self@.slots.len() == 7,
                forall|j: int| 0 <= j < 4 ==> #[trigger] self@.targets[j] <= 13,
                c <= 7,
                forall|j: int| 0 <= j < c as int ==> col_ok(#[trigger] self@.slots[j]),
            decreases 7 - c,
        {
            let col = &self.slots[c];
            proof {
                assert(col@ == self@.slots[c as int]);
            }
            if col.hidden > col.cards.len() {
                assert(!col_ok(self@.slots[c as int]));
                return false;
            }
            let len = col.cards.len();
            let mut rr: usize = 0;
            while rr < len
                invariant
                    c < 7,
                    rr <= len,
                    col@ == self@.slots[c as int],
                    len == col@.cards.len(),
                    forall|q: int| 0 <= q < rr as int ==> card_ok(#[trigger] col@.cards[q]),
                decreases len - rr,
            {
                let card = Card(col.cards[rr]);
                if !(card.suit() < 4 && 1 <= card.rank() && card.rank() <= 13) {
                    return false;
                }
                rr += 1;
            }
            c += 1;
        }
        assert(table_shape(self@));
        let mut su: u8 = 0;
        while su < 4
            invariant
                table_shape(self@),
                su <= 4,
                forall|b: u8|
                    card_ok(b) && spec_suit(b) < su ==> #[trigger] count_in_state(self@, b) == 1,
            decreases 4 - su,
        {
            let mut rk: u8 = 1;
            while rk <= 13
                invariant
                    table_shape(self@),
                    su < 4,
                    1 <= rk <= 14,
                    forall|b: u8|
                        card_ok(b) && spec_suit(b) < su ==> #[trigger] count_in_state(self@, b)
                            == 1,
                    forall|b: u8|
                        card_ok(b) && spec_suit(b) == su && spec_rank(b) < rk ==> #[trigger]
                            count_in_state(self@, b) == 1,
                decreases 14 - rk,
            {
                let b = Card::from_suit_rank(su, rk);
                let cnt = self.count_card_capped(b);
                if cnt != 1 {
                    return false;
                }
                proof {
                    assert forall|b2: u8|
                        card_ok(b2) && spec_suit(b2) == su && spec_rank(b2) < rk + 1 implies #[trigger]
                        count_in_state(self@, b2) == 1 by {
                        if spec_rank(b2) == rk {
                            crate::card::lemma_unpack_pack(b2);
                        }
                    }
                }
                rk += 1;
            }
            su += 1;
        }
        proof {
            assert forall|b: u8| card_ok(b) implies #[trigger] count_in_state(self@, b) == 1 by {
                crate::card::lemma_unpack_pack(b);
            }
        }
        true
    }
}

} // verus!
