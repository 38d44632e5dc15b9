//! Card codec: a card is packed into one byte, suit in the high four bits,
//! rank in the low four bits. Suits are numbered 0 = spade, 1 = heart,
//! 2 = club, 3 = diamond; a suit is red iff its number is odd. Every valid
//! card also has a linear index in 0..52, `suit * 13 + rank - 1`, used as a
//! bit position in the reserve and as the canonical iteration order. The
//! packing and the linear index are both bijections over the 52 valid cards.

use vstd::prelude::*;

verus! {

/// Rank of a packed card byte: the low four bits.
pub open spec fn spec_rank(c: u8) -> u8 {
    c & 0x0f
}

/// Suit of a packed card byte: the high four bits.
pub open spec fn spec_suit(c: u8) -> u8 {
    c >> 4
}

/// A byte encodes a valid card iff its suit is below 4 and its rank lies in 1..=13.
pub open spec fn card_ok(c: u8) -> bool {
    spec_suit(c) < 4 && 1 <= spec_rank(c) && spec_rank(c) <= 13
}

/// Pack a suit and a rank into one byte (the arithmetic form of `(suit << 4) | rank`).
pub open spec fn spec_pack(suit: u8, rank: u8) -> u8
    recommends
        suit < 4,
        1 <= rank <= 13,
{
    (suit * 16 + rank) as u8
}

/// Linear index of a valid card: suit * 13 + rank - 1, in 0..52.
pub open spec fn lin_index(c: u8) -> int
    recommends
        card_ok(c),
{
    spec_suit(c) * 13 + spec_rank(c) - 1
}

/// The valid card whose linear index is `i`.
pub open spec fn card_of_index(i: int) -> u8
    recommends
        0 <= i < 52,
{
    spec_pack((i / 13) as u8, (i % 13 + 1) as u8)
}

/// A card is red iff its suit is odd (heart, diamond).
pub open spec fn spec_is_red(c: u8) -> bool {
    spec_suit(c) % 2 == 1
}

/// Packing then unpacking gives the suit and rank back.
pub proof fn lemma_pack_fields(suit: u8, rank: u8)
    requires
        suit < 4,
        1 <= rank <= 13,
    ensures
        spec_suit(spec_pack(suit, rank)) == suit,
        spec_rank(spec_pack(suit, rank)) == rank,
        card_ok(spec_pack(suit, rank)),
{
    assert(suit < 4 && 1 <= rank && rank <= 13 ==> ((suit * 16 + rank) as u8) >> 4 == suit
        && ((suit * 16 + rank) as u8) & 0x0f == rank) by (bit_vector);
}

/// Unpacking then packing gives the byte back.
pub proof fn lemma_unpack_pack(c: u8)
    ensures
        spec_pack(spec_suit(c), spec_rank(c)) == c,
{
    assert(((c >> 4) * 16 + (c & 0x0f)) as u8 == c) by (bit_vector);
}

/// A valid card's linear index lies in 0..52 and maps back to the card.
pub proof fn lemma_card_index_roundtrip(c: u8)
    requires
        card_ok(c),
    ensures
        0 <= lin_index(c) < 52,
        card_of_index(lin_index(c)) == c,
{
    let s = spec_suit(c);
    let r = spec_rank(c);
    let i = lin_index(c);
    assert(i == s * 13 + r - 1);
    assert(i / 13 == s && i % 13 == r - 1) by (nonlinear_arith)
        requires
            s < 4,
            1 <= r <= 13,
            i == s * 13 + r - 1,
    ;
    lemma_unpack_pack(c);
}

/// Every index in 0..52 names a valid card, and that card maps back to the index.
pub proof fn lemma_index_card_roundtrip(i: int)
    requires
        0 <= i < 52,
    ensures
        card_ok(card_of_index(i)),
        lin_index(card_of_index(i)) == i,
{
    let s = (i / 13) as u8;
    let r = (i % 13 + 1) as u8;
    assert(i / 13 < 4 && 0 <= i % 13 < 13 && 13 * (i / 13) + i % 13 == i) by (nonlinear_arith)
        requires
            0 <= i < 52,
    ;
    lemma_pack_fields(s, r);
}

/// A card packed into one byte.
#[derive(Clone, Copy, PartialEq, Eq, Structural, Debug)]
pub struct Card(pub u8);

/// A card paired with whether the view should draw it highlighted.
#[derive(Clone, Copy, Debug)]
pub struct HighlightedCard(pub Card, pub bool);

impl Card {
    /// The valid card with the given linear index.
    pub fn from_index(i: usize) -> (c: Card)
        requires
            i < 52,
        ensures
            c.0 == card_of_index(i as int),
            card_ok(c.0),
    {
        let rank = (i % 13 + 1) as u8;
        let suit = (i / 13) as u8;
        proof {
            lemma_index_card_roundtrip(i as int);
        }
        Self::from_suit_rank(suit, rank)
    }

    /// Pack a suit and a rank into a card.
    pub fn from_suit_rank(suit: u8, rank: u8) -> (c: Card)
        requires
            suit < 4,
            1 <= rank <= 13,
        ensures
            c.0 == spec_pack(suit, rank),
            card_ok(c.0),
            spec_suit(c.0) == suit,
            spec_rank(c.0) == rank,
    {
        proof {
            lemma_pack_fields(suit, rank);
            assert(suit < 4 && rank <= 13 ==> ((suit << 4) | rank) == (suit * 16 + rank) as u8)
                by (bit_vector);
        }
        Self((suit << 4) | rank)
    }

    /// The card's linear index, in 0..52.
    pub fn to_ind(&self) -> (r: usize)
        requires
            card_ok(self.0),
        ensures
            r == lin_index(self.0),
            r < 52,
    {
        (self.suit() * 13 + self.rank() - 1) as usize
    }

    /// The card's rank, 1..=13 when the byte is valid.
    pub fn rank(&self) -> (r: u8)
        ensures
            r == spec_rank(self.0),
    {
        self.0 & 0x0f
    }

    /// The card's suit, 0..4 when the byte is valid.
    pub fn suit(&self) -> (r: u8)
        ensures
            r == spec_suit(self.0),
    {
        self.0 >> 4
    }

    /// Whether the card is red (heart or diamond).
    pub fn is_red(&self) -> (r: bool)
        ensures
            r == spec_is_red(self.0),
    {
        proof {
            let c = self.0;
            assert(((c >> 4) & 1 == 1) == ((c >> 4) % 2 == 1)) by (bit_vector);
        }
        (self.0 >> 4) & 1 == 1
    }

    /// Pair the card with a highlight flag for the view layer.
    pub fn highlight(self, highlight: bool) -> (r: HighlightedCard)
        ensures
            r.0 == self,
            r.1 == highlight,
    {
        HighlightedCard(self, highlight)
    }
}

} // verus!
