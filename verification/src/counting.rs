//! Counting over boolean masks.
//!
//! The board keeps several derived numbers — how many tiles are
//! flagged, dug, or mined, and how many marked tiles a cell has among
//! its neighbours. These are all counts of true entries of a mask,
//! either over the whole mask or over a sequence of positions. This
//! module defines the two counters and proves how they move when one
//! mask entry changes.

use vstd::prelude::*;

verus! {

/// How many entries of `mask` are true.
pub open spec fn count_true(mask: Seq<bool>) -> int
    decreases mask.len(),
{
    if mask.len() == 0 {
        0
    } else {
        count_true(mask.drop_last()) + if mask.last() {
            1int
        } else {
            0int
        }
    }
}

/// How many entries of `s` point at a true entry of `mask`.
/// A position outside the mask counts for nothing.
pub open spec fn count_at(mask: Seq<bool>, s: Seq<usize>) -> int
    decreases s.len(),
{
    if s.len() == 0 {
        0
    } else {
        count_at(mask, s.drop_last()) + if s.last() < mask.len() && mask[s.last() as int] {
            1int
        } else {
            0int
        }
    }
}

/// The whole-mask count lies between 0 and the mask's length; a true
/// entry keeps it above 0, a false entry keeps it under the length.
pub proof fn lemma_count_true_bounds(mask: Seq<bool>, i: int)
    requires
        0 <= i < mask.len(),
    ensures
        0 <= count_true(mask) <= mask.len(),
        mask[i] ==> count_true(mask) >= 1,
        !mask[i] ==> count_true(mask) <= mask.len() - 1,
    decreases mask.len(),
{
    if mask.len() == 1 {
        assert(count_true(mask.drop_last()) == 0);
    } else {
        if i < mask.len() - 1 {
            lemma_count_true_bounds(mask.drop_last(), i);
        } else {
            lemma_count_true_bounds(mask.drop_last(), 0);
        }
    }
}

/// A mask with no true entry counts to 0.
pub proof fn lemma_count_true_zero(mask: Seq<bool>)
    requires
        forall|i: int| 0 <= i < mask.len() ==> !mask[i],
    ensures
        count_true(mask) == 0,
    decreases mask.len(),
{
    if mask.len() > 0 {
        lemma_count_true_zero(mask.drop_last());
    }
}

/// Changing one entry of the mask moves the whole-mask count by the
/// difference of the old and new entry.
pub proof fn lemma_count_true_update(mask: Seq<bool>, i: int, v: bool)
    requires
        0 <= i < mask.len(),
    ensures
        count_true(mask.update(i, v)) == count_true(mask) - (if mask[i] {
            1int
        } else {
            0int
        }) + (if v {
            1int
        } else {
            0int
        }),
    decreases mask.len(),
{
    let m2 = mask.update(i, v);
    if i == mask.len() - 1 {
        assert(m2.drop_last() =~= mask.drop_last());
    } else {
        assert(m2.drop_last() =~= mask.drop_last().update(i, v));
        lemma_count_true_update(mask.drop_last(), i, v);
    }
}

/// The positional count lies between 0 and the number of positions.
pub proof fn lemma_count_at_bounds(mask: Seq<bool>, s: Seq<usize>)
    ensures
        0 <= count_at(mask, s) <= s.len(),
    decreases s.len(),
{
    if s.len() > 0 {
        lemma_count_at_bounds(mask, s.drop_last());
    }
}

/// Positions all pointing at false entries count to 0.
pub proof fn lemma_count_at_zero(mask: Seq<bool>, s: Seq<usize>)
    requires
        forall|i: int| 0 <= i < mask.len() ==> !mask[i],
    ensures
        count_at(mask, s) == 0,
    decreases s.len(),
{
    if s.len() > 0 {
        lemma_count_at_zero(mask, s.drop_last());
    }
}

/// Two masks that agree on every listed position count alike there.
pub proof fn lemma_count_at_agree(mask1: Seq<bool>, mask2: Seq<bool>, s: Seq<usize>)
    requires
        mask1.len() == mask2.len(),
        forall|k: int|
            0 <= k < s.len() && (s[k] as int) < mask1.len() ==> mask1[s[k] as int] == mask2[s[k] as int],
    ensures
        count_at(mask1, s) == count_at(mask2, s),
    decreases s.len(),
{
    if s.len() > 0 {
        lemma_count_at_agree(mask1, mask2, s.drop_last());
    }
}

/// Setting a false mask entry to true raises the positional count by 1
/// where the position list holds that entry (once), and else not at all.
pub proof fn lemma_count_at_set_true(mask: Seq<bool>, s: Seq<usize>, i: usize)
    requires
        (i as int) < mask.len(),
        !mask[i as int],
        s.no_duplicates(),
    ensures
        count_at(mask.update(i as int, true), s) == count_at(mask, s) + (if s.contains(i) {
            1int
        } else {
            0int
        }),
    decreases s.len(),
{
    if s.len() > 0 {
        assert(s.drop_last().no_duplicates());
        lemma_count_at_set_true(mask, s.drop_last(), i);
        if s.last() == i {
            assert(s.contains(i)) by {
                assert(s[s.len() - 1] == i);
            }
            assert(!s.drop_last().contains(i)) by {
                if s.drop_last().contains(i) {
                    let k = choose|k: int| 0 <= k < s.len() - 1 && s.drop_last()[k] == i;
                    assert(s[k] == s[s.len() - 1]);
                }
            }
        } else {
            assert(s.drop_last().contains(i) == s.contains(i)) by {
                if s.contains(i) {
                    let k = choose|k: int| 0 <= k < s.len() && s[k] == i;
                    assert(s.drop_last()[k] == i);
                }
                if s.drop_last().contains(i) {
                    let k = choose|k: int| 0 <= k < s.len() - 1 && s.drop_last()[k] == i;
                    assert(s[k] == i);
                }
            }
        }
    }
}

/// Removing one position from a duplicate-free list keeps it
/// duplicate-free and removes exactly that position's value.
pub proof fn lemma_remove_no_dup(s: Seq<usize>, r: int)
    requires
        s.no_duplicates(),
        0 <= r < s.len(),
    ensures
        s.remove(r).no_duplicates(),
        forall|j: usize| #[trigger] s.remove(r).contains(j) <==> (s.contains(j) && j != s[r]),
{
    let s2 = s.remove(r);
    assert(s2.len() == s.len() - 1);
    assert(forall|k: int| 0 <= k < r ==> s2[k] == s[k]);
    assert(forall|k: int| r <= k < s2.len() ==> s2[k] == s[k + 1]);
    assert forall|j: usize| #[trigger] s2.contains(j) implies (s.contains(j) && j != s[r]) by {
        let k = choose|k: int| 0 <= k < s2.len() && s2[k] == j;
        if k < r {
            assert(s[k] == j);
        } else {
            assert(s[k + 1] == j);
        }
    }
    assert forall|j: usize| s.contains(j) && j != s[r] implies #[trigger] s2.contains(j) by {
        let k = choose|k: int| 0 <= k < s.len() && s[k] == j;
        if k < r {
            assert(s2[k] == j);
        } else {
            assert(k > r);
            assert(s2[k - 1] == j);
        }
    }
}

} // verus!
