//! Properties of the deal and the move engine, stated over the spec-level
//! move semantics and proved once and for all: the deal's size invariant,
//! preservation of well-formedness by every legal move, the automatic-reveal
//! rule, per-move foundation monotonicity, the rejection of runs sent to a
//! foundation, and the tableau placement rule.

use vstd::prelude::*;

use crate::card::{spec_is_red, spec_rank, spec_suit};
use crate::counting::count_true;
use crate::engine::{
    is_multi, lemma_move_conserves, lemma_move_shape, move_legal, move_result, moving_card,
    valid_dest, valid_source,
};
use crate::solitare_state::{count_in_state, table_shape, wf, ColView, Highlight, TableView};

verus! {

/// Total number of cards on the tableau.
pub open spec fn total_cols_len(slots: Seq<ColView>) -> int
    decreases slots.len(),
{
    if slots.len() == 0 {
        0
    } else {
        slots[0].cards.len() + total_cols_len(slots.drop_first())
    }
}

/// Deal invariant: right after dealing, with column `c` holding `c + 1`
/// cards and 24 cards in the reserve, the reserve's population count and the
/// column lengths add up to all 52 cards.
pub proof fn lemma_deal_sizes(v: TableView)
    requires
        v.slots.len() == 7,
        forall|c: int| 0 <= c < 7 ==> (#[trigger] v.slots[c]).cards.len() == c + 1,
        count_true(v.deck) == 24,
    ensures
        count_true(v.deck) + total_cols_len(v.slots) == 52,
{
    let s0 = v.slots;
    let s1 = s0.drop_first();
    let s2 = s1.drop_first();
    let s3 = s2.drop_first();
    let s4 = s3.drop_first();
    let s5 = s4.drop_first();
    let s6 = s5.drop_first();
    let s7 = s6.drop_first();
    assert(s1[0] == s0[1] && s2[0] == s0[2] && s3[0] == s0[3] && s4[0] == s0[4] && s5[0] == s0[5]
        && s6[0] == s0[6]);
    assert(s7.len() == 0);
    assert(total_cols_len(s7) == 0);
    assert(total_cols_len(s6) == s6[0].cards.len() + total_cols_len(s7));
    assert(total_cols_len(s5) == s5[0].cards.len() + total_cols_len(s6));
    assert(total_cols_len(s4) == s4[0].cards.len() + total_cols_len(s5));
    assert(total_cols_len(s3) == s3[0].cards.len() + total_cols_len(s4));
    assert(total_cols_len(s2) == s2[0].cards.len() + total_cols_len(s3));
    assert(total_cols_len(s1) == s1[0].cards.len() + total_cols_len(s2));
    assert(total_cols_len(s0) == s0[0].cards.len() + total_cols_len(s1));
    assert(total_cols_len(s0) == 28);
}

/// Every legal move preserves well-formedness: the shape constraints still
/// hold and the multiset of the 52 cards is untouched. Hence any sequence of
/// legal moves conserves the cards.
pub proof fn lemma_move_preserves_wf(v: TableView, src: Highlight, dst: Highlight)
    requires
        wf(v),
        valid_source(v, src),
        valid_dest(dst),
        move_legal(v, src, dst),
    ensures
        wf(move_result(v, src, dst)),
{
    lemma_move_shape(v, src, dst);
    lemma_move_conserves(v, src, dst);
}

/// Reveal correctness: a move out of row `r` of column `c` leaves that
/// column `r` cards long; its face-down count drops by exactly one when the
/// removal left only face-down cards (and there were any), and is untouched
/// otherwise. The destination never changes this: even a move onto the same
/// column keeps the adjusted count.
pub proof fn lemma_reveal_on_removal(v: TableView, c: u8, r: u8, dst: Highlight)
    requires
        table_shape(v),
        valid_source(v, Highlight::Slot(c, r)),
        valid_dest(dst),
        move_legal(v, Highlight::Slot(c, r), dst),
    ensures
        ({
            let h0 = v.slots[c as int].hidden;
            let h1 = move_result(v, Highlight::Slot(c, r), dst).slots[c as int].hidden;
            h1 == if h0 > 0 && h0 == r as int {
                (h0 - 1) as nat
            } else {
                h0
            }
        }),
{
}

/// Foundation monotonicity: one successful move changes at most one
/// foundation counter, and only by exactly +1 (a foundation receives the
/// card) or -1 (a foundation gives a card back to the tableau).
pub proof fn lemma_foundation_monotone(v: TableView, src: Highlight, dst: Highlight)
    requires
        table_shape(v),
        valid_source(v, src),
        valid_dest(dst),
        move_legal(v, src, dst),
    ensures
        ({
            let t0 = v.targets;
            let t1 = move_result(v, src, dst).targets;
            &&& t1.len() == t0.len()
            &&& dst is Target ==> {
                let su = spec_suit(moving_card(v, src)) as int;
                &&& 0 <= su < 4
                &&& t1[su] == t0[su] + 1
                &&& forall|j: int| 0 <= j < 4 && j != su ==> t1[j] == t0[j]
            }
            &&& (dst is Slot && src is Target) ==> {
                let s = src->Target_0 as int;
                &&& t1[s] == t0[s] - 1
                &&& forall|j: int| 0 <= j < 4 && j != s ==> t1[j] == t0[j]
            }
            &&& (!(dst is Target) && !(src is Target)) ==> t1 =~= t0
        }),
{
    let card = moving_card(v, src);
    if dst is Target {
        if src is Target {
            crate::card::lemma_pack_fields(src->Target_0, v.targets[src->Target_0 as int]);
            assert(false);
        }
        match src {
            Highlight::Deck(i) => {
                crate::engine::lemma_nth_true_props(v.deck, i as int);
                crate::card::lemma_index_card_roundtrip(
                    crate::engine::nth_true(v.deck, i as int),
                );
            },
            Highlight::Slot(_, _) => {},
            Highlight::Target(_) => {},
        }
        assert(crate::card::card_ok(card));
    }
}

/// Multi-card run legality: a run of more than one card is never accepted by
/// a foundation, whatever the rank of its bottom card.
pub proof fn lemma_run_to_foundation_rejected(v: TableView, src: Highlight, dst: Highlight)
    requires
        is_multi(v, src),
        dst is Target,
    ensures
        !move_legal(v, src, dst),
{
}

/// The tableau placement rule: a unit may land on a column exactly when its
/// bottom card is a king and the column is empty, or is one rank below and
/// of the opposite color to the column's top card.
pub proof fn lemma_tableau_placement(v: TableView, src: Highlight, c: u8, r: u8)
    requires
        c < 7,
    ensures
        ({
            let card = moving_card(v, src);
            let col = v.slots[c as int];
            move_legal(v, src, Highlight::Slot(c, r)) == if col.cards.len() == 0 {
                spec_rank(card) == 13
            } else {
                spec_rank(card) + 1 == spec_rank(col.cards.last()) && spec_is_red(card)
                    != spec_is_red(col.cards.last())
            }
        }),
{
}

/// Whether every step of a sequence of picks, each a (source, destination)
/// pair, is a valid and legal move of the state it meets.
pub open spec fn moves_ok(v: TableView, moves: Seq<(Highlight, Highlight)>) -> bool
    decreases moves.len(),
{
    if moves.len() == 0 {
        true
    } else {
        let (src, dst) = moves[0];
        &&& valid_source(v, src)
        &&& valid_dest(dst)
        &&& move_legal(v, src, dst)
        &&& moves_ok(move_result(v, src, dst), moves.drop_first())
    }
}

/// The table a sequence of legal moves produces.
pub open spec fn apply_moves(v: TableView, moves: Seq<(Highlight, Highlight)>) -> TableView
    decreases moves.len(),
{
    if moves.len() == 0 {
        v
    } else {
        let (src, dst) = moves[0];
        apply_moves(move_result(v, src, dst), moves.drop_first())
    }
}

/// Conservation over whole games: any sequence of legal moves leaves the
/// table well formed, and every card's occurrence count over reserve,
/// foundations and tableau — the multiset of all 52 cards — untouched.
pub proof fn lemma_moves_conserve(v: TableView, moves: Seq<(Highlight, Highlight)>)
    requires
        wf(v),
        moves_ok(v, moves),
    ensures
        wf(apply_moves(v, moves)),
        forall|b: u8|
            #[trigger] count_in_state(apply_moves(v, moves), b) == count_in_state(v, b),
    decreases moves.len(),
{
    if moves.len() > 0 {
        let (src, dst) = moves[0];
        lemma_move_shape(v, src, dst);
        lemma_move_conserves(v, src, dst);
        lemma_moves_conserve(move_result(v, src, dst), moves.drop_first());
    }
}

} // verus!
