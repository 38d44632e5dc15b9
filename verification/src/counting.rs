//! Counting helpers used throughout the table-state invariants: how many
//! times a byte occurs in a sequence (card conservation) and how many bits
//! of a boolean sequence are set (the reserve's population count).

use vstd::prelude::*;

verus! {

/// Number of occurrences of `b` in `s`.
pub open spec fn count_byte(s: Seq<u8>, b: u8) -> int
    decreases s.len(),
{
    if s.len() == 0 {
        0
    } else {
        count_byte(s.drop_last(), b) + if s.last() == b {
            1int
        } else {
            0int
        }
    }
}

pub proof fn lemma_count_byte_nonneg(s: Seq<u8>, b: u8)
    ensures
        0 <= count_byte(s, b) <= s.len(),
    decreases s.len(),
{
    if s.len() > 0 {
        lemma_count_byte_nonneg(s.drop_last(), b);
    }
}

/// Pushing one element raises the count of exactly that element.
pub proof fn lemma_count_byte_push(s: Seq<u8>, x: u8, b: u8)
    ensures
        count_byte(s.push(x), b) == count_byte(s, b) + if x == b {
            1int
        } else {
            0int
        },
{
    assert(s.push(x).drop_last() =~= s);
}

/// Counts add over concatenation.
pub proof fn lemma_count_byte_append(s: Seq<u8>, t: Seq<u8>, b: u8)
    ensures
        count_byte(s + t, b) == count_byte(s, b) + count_byte(t, b),
    decreases t.len(),
{
    if t.len() == 0 {
        assert(s + t =~= s);
    } else {
        lemma_count_byte_append(s, t.drop_last(), b);
        assert((s + t).drop_last() =~= s + t.drop_last());
        assert((s + t).last() == t.last());
    }
}

/// A sequence's count splits at any cut point.
pub proof fn lemma_count_byte_split(s: Seq<u8>, n: int, b: u8)
    requires
        0 <= n <= s.len(),
    ensures
        count_byte(s, b) == count_byte(s.take(n), b) + count_byte(s.skip(n), b),
{
    assert(s =~= s.take(n) + s.skip(n));
    lemma_count_byte_append(s.take(n), s.skip(n), b);
}

/// Overwriting one position trades the old value's count for the new one's.
pub proof fn lemma_count_byte_update(s: Seq<u8>, i: int, v: u8, b: u8)
    requires
        0 <= i < s.len(),
    ensures
        count_byte(s.update(i, v), b) == count_byte(s, b) - (if s[i] == b {
            1int
        } else {
            0int
        }) + (if v == b {
            1int
        } else {
            0int
        }),
    decreases s.len(),
{
    if i == s.len() - 1 {
        assert(s.update(i, v).drop_last() =~= s.drop_last());
        assert(s.update(i, v).last() == v);
    } else {
        lemma_count_byte_update(s.drop_last(), i, v, b);
        assert(s.update(i, v).drop_last() =~= s.drop_last().update(i, v));
        assert(s.update(i, v).last() == s.last());
    }
}

/// An occurrence at some position makes the count positive.
pub proof fn lemma_count_byte_at(s: Seq<u8>, i: int, b: u8)
    requires
        0 <= i < s.len(),
        s[i] == b,
    ensures
        count_byte(s, b) >= 1,
    decreases s.len(),
{
    lemma_count_byte_nonneg(s.drop_last(), b);
    if i < s.len() - 1 {
        lemma_count_byte_at(s.drop_last(), i, b);
    }
}

/// A byte whose whole-sequence count is one occurs nowhere outside its
/// position: any subrange strictly before or after it counts zero.
pub proof fn lemma_count_byte_one_elsewhere_zero(s: Seq<u8>, m: int, lo: int, hi: int, b: u8)
    requires
        0 <= m < s.len(),
        s[m] == b,
        count_byte(s, b) == 1,
        0 <= lo <= hi <= s.len(),
        hi <= m || m < lo,
    ensures
        count_byte(s.subrange(lo, hi), b) == 0,
{
    lemma_count_byte_split(s, m, b);
    lemma_count_byte_at(s.skip(m), 0, b);
    lemma_count_byte_nonneg(s.take(m), b);
    lemma_count_byte_nonneg(s.skip(m), b);
    if hi <= m {
        // the subrange sits inside the prefix before m, which counts zero
        lemma_count_byte_split(s.take(m), lo, b);
        lemma_count_byte_split(s.take(m).skip(lo), hi - lo, b);
        assert(s.take(m).skip(lo).take(hi - lo) =~= s.subrange(lo, hi));
        lemma_count_byte_nonneg(s.take(m).take(lo), b);
        lemma_count_byte_nonneg(s.take(m).skip(lo).skip(hi - lo), b);
        lemma_count_byte_nonneg(s.subrange(lo, hi), b);
    } else {
        // the subrange sits inside the suffix after m, which counts zero
        assert(s.skip(m).drop_first() =~= s.skip(m + 1));
        assert(count_byte(s.skip(m), b) == count_byte(s.skip(m).take(1), b) + count_byte(
            s.skip(m + 1),
            b,
        )) by {
            lemma_count_byte_split(s.skip(m), 1, b);
            assert(s.skip(m).skip(1) =~= s.skip(m + 1));
        }
        lemma_count_byte_at(s.skip(m).take(1), 0, b);
        lemma_count_byte_nonneg(s.skip(m).take(1), b);
        lemma_count_byte_nonneg(s.skip(m + 1), b);
        lemma_count_byte_split(s.skip(m + 1), lo - (m + 1), b);
        lemma_count_byte_split(s.skip(m + 1).skip(lo - (m + 1)), hi - lo, b);
        assert(s.skip(m + 1).skip(lo - (m + 1)).take(hi - lo) =~= s.subrange(lo, hi));
        lemma_count_byte_nonneg(s.skip(m + 1).take(lo - (m + 1)), b);
        lemma_count_byte_nonneg(s.skip(m + 1).skip(lo - (m + 1)).skip(hi - lo), b);
        lemma_count_byte_nonneg(s.subrange(lo, hi), b);
    }
}

/// Number of set entries among the first `n` of a boolean sequence.
pub open spec fn count_true_upto(s: Seq<bool>, n: int) -> int
    decreases n,
{
    if n <= 0 {
        0
    } else {
        count_true_upto(s, n - 1) + if s[n - 1] {
            1int
        } else {
            0int
        }
    }
}

/// Number of set entries of a boolean sequence (the population count).
pub open spec fn count_true(s: Seq<bool>) -> int {
    count_true_upto(s, s.len() as int)
}

/// Prefix counts grow monotonically.
pub proof fn lemma_count_true_upto_monotone(s: Seq<bool>, m: int, n: int)
    requires
        0 <= m <= n,
    ensures
        count_true_upto(s, m) <= count_true_upto(s, n),
    decreases n - m,
{
    if m < n {
        lemma_count_true_upto_monotone(s, m, n - 1);
    }
}

/// Two set positions are told apart by their prefix counts.
pub proof fn lemma_count_true_upto_strict(s: Seq<bool>, k1: int, k2: int)
    requires
        0 <= k1 < k2,
        s[k1],
    ensures
        count_true_upto(s, k1) < count_true_upto(s, k2),
{
    lemma_count_true_upto_monotone(s, k1 + 1, k2);
}

/// Updating one entry changes the count by the difference at that entry.
pub proof fn lemma_count_true_upto_update(s: Seq<bool>, k: int, v: bool, n: int)
    requires
        0 <= k < s.len(),
        0 <= n <= s.len(),
    ensures
        count_true_upto(s.update(k, v), n) == if k < n {
            count_true_upto(s, n) - (if s[k] {
                1int
            } else {
                0int
            }) + (if v {
                1int
            } else {
                0int
            })
        } else {
            count_true_upto(s, n)
        },
    decreases n,
{
    if n > 0 {
        lemma_count_true_upto_update(s, k, v, n - 1);
    }
}

/// A prefix with no set entries counts zero.
pub proof fn lemma_count_true_upto_false(s: Seq<bool>, n: int)
    requires
        0 <= n <= s.len(),
        forall|i: int| 0 <= i < n ==> !s[i],
    ensures
        count_true_upto(s, n) == 0,
    decreases n,
{
    if n > 0 {
        lemma_count_true_upto_false(s, n - 1);
    }
}

/// Count of a one-element sequence.
pub proof fn lemma_count_byte_singleton(x: u8, b: u8)
    ensures
        count_byte(seq![x], b) == if x == b {
            1int
        } else {
            0int
        },
{
    assert(seq![x].len() == 1);
    assert(seq![x].last() == x);
    assert(seq![x].drop_last() =~= Seq::<u8>::empty());
    assert(count_byte(Seq::<u8>::empty(), b) == 0);
}

} // verus!
