//! Sequence helpers shared by the table and engine specifications.

use vstd::prelude::*;

verus! {

/// Sum of a sequence of integers.
pub open spec fn sum_ints(s: Seq<int>) -> int
    decreases s.len(),
{
    if s.len() == 0 {
        0
    } else {
        sum_ints(s.drop_last()) + s.last()
    }
}

/// How many entries of `keep` are true.
pub open spec fn count_true(keep: Seq<bool>) -> int
    decreases keep.len(),
{
    if keep.len() == 0 {
        0
    } else {
        count_true(keep.drop_last()) + if keep.last() {
            1int
        } else {
            0int
        }
    }
}

/// The elements of `s` whose position holds a true entry of `keep`,
/// in their original relative order. Meaningful when the two sequences
/// have equal length.
pub open spec fn mask_seq<A>(s: Seq<A>, keep: Seq<bool>) -> Seq<A>
    decreases s.len(),
{
    if s.len() == 0 {
        Seq::empty()
    } else {
        mask_seq(s.drop_last(), keep.drop_last()) + if 0 < keep.len() && keep.last() {
            seq![s.last()]
        } else {
            Seq::empty()
        }
    }
}

pub proof fn lemma_mask_take_step<A>(s: Seq<A>, keep: Seq<bool>, i: int)
    requires
        0 <= i < s.len(),
        i < keep.len(),
    ensures
        mask_seq(s.take(i + 1), keep.take(i + 1)) == mask_seq(s.take(i), keep.take(i)) + (if keep[i] {
            seq![s[i]]
        } else {
            Seq::<A>::empty()
        }),
{
    assert(s.take(i + 1).drop_last() =~= s.take(i));
    assert(keep.take(i + 1).drop_last() =~= keep.take(i));
}

pub proof fn lemma_mask_len<A>(s: Seq<A>, keep: Seq<bool>)
    requires
        s.len() == keep.len(),
    ensures
        mask_seq(s, keep).len() == count_true(keep),
        count_true(keep) <= s.len(),
    decreases s.len(),
{
    if s.len() > 0 {
        lemma_mask_len(s.drop_last(), keep.drop_last());
    }
}

pub proof fn lemma_count_true_pos<A>(s: Seq<A>, keep: Seq<bool>)
    requires
        s.len() == keep.len(),
    ensures
        count_true(keep) >= 0,
        (count_true(keep) > 0) <==> (exists|j: int| 0 <= j < keep.len() && keep[j]),
    decreases s.len(),
{
    if s.len() > 0 {
        lemma_count_true_pos(s.drop_last(), keep.drop_last());
        if keep.last() {
            assert(keep[keep.len() - 1]);
        }
        if count_true(keep) > 0 && !keep.last() {
            let j = choose|j: int| 0 <= j < keep.len() - 1 && keep.drop_last()[j];
            assert(keep[j]);
        }
        if exists|j: int| 0 <= j < keep.len() && keep[j] {
            let j = choose|j: int| 0 <= j < keep.len() && keep[j];
            if j < keep.len() - 1 {
                assert(keep.drop_last()[j]);
            }
        }
    }
}


/// `count_true` is at most one exactly when no two positions are both true;
/// it is never negative.
pub proof fn lemma_count_true_le_one<A>(s: Seq<A>, keep: Seq<bool>)
    requires
        s.len() == keep.len(),
    ensures
        count_true(keep) >= 0,
        (count_true(keep) <= 1) <==> (forall|j1: int, j2: int|
            0 <= j1 < j2 < keep.len() ==> !(keep[j1] && keep[j2])),
    decreases s.len(),
{
    if s.len() > 0 {
        lemma_count_true_le_one(s.drop_last(), keep.drop_last());
        lemma_count_true_pos(s.drop_last(), keep.drop_last());
        let kp = keep.drop_last();
        if count_true(keep) <= 1 {
            assert forall|j1: int, j2: int| 0 <= j1 < j2 < keep.len() implies !(keep[j1]
                && keep[j2]) by {
                if keep[j1] && keep[j2] {
                    if j2 < keep.len() - 1 {
                        assert(kp[j1] && kp[j2]);
                        assert(count_true(kp) > 1);
                    } else {
                        assert(kp[j1]);
                        assert(count_true(kp) > 0);
                    }
                }
            }
        }
        if forall|j1: int, j2: int| 0 <= j1 < j2 < keep.len() ==> !(keep[j1] && keep[j2]) {
            assert forall|j1: int, j2: int| 0 <= j1 < j2 < kp.len() implies !(kp[j1]
                && kp[j2]) by {
                assert(keep[j1] == kp[j1] && keep[j2] == kp[j2]);
            }
            if keep.last() {
                assert forall|j: int| 0 <= j < kp.len() implies !kp[j] by {
                    assert(!(keep[j] && keep[keep.len() - 1]));
                }
                assert(count_true(kp) == 0);
            }
        }
    }
}

/// Keeping every element is the identity.
pub proof fn lemma_mask_all_true<A>(s: Seq<A>, keep: Seq<bool>)
    requires
        s.len() == keep.len(),
        forall|j: int| 0 <= j < keep.len() ==> keep[j],
    ensures
        mask_seq(s, keep) == s,
    decreases s.len(),
{
    if s.len() > 0 {
        lemma_mask_all_true(s.drop_last(), keep.drop_last());
        assert(mask_seq(s, keep) =~= s);
    } else {
        assert(mask_seq(s, keep) =~= s);
    }
}

/// Every element a mask keeps comes from the source sequence, and every kept
/// position's element is kept.
pub proof fn lemma_mask_membership<A>(s: Seq<A>, keep: Seq<bool>)
    requires
        s.len() == keep.len(),
    ensures
        forall|k: int|
            0 <= k < mask_seq(s, keep).len() ==> exists|j: int|
                0 <= j < s.len() && keep[j] && s[j] == #[trigger] mask_seq(s, keep)[k],
        forall|j: int|
            0 <= j < s.len() && keep[j] ==> #[trigger] mask_seq(s, keep).contains(s[j]),
    decreases s.len(),
{
    if s.len() > 0 {
        lemma_mask_membership(s.drop_last(), keep.drop_last());
        let m = mask_seq(s, keep);
        let mp = mask_seq(s.drop_last(), keep.drop_last());
        assert forall|k: int| 0 <= k < m.len() implies exists|j: int|
            0 <= j < s.len() && keep[j] && s[j] == #[trigger] m[k] by {
            if k < mp.len() {
                let j = choose|j: int|
                    0 <= j < s.len() - 1 && keep.drop_last()[j] && s.drop_last()[j] == mp[k];
                assert(0 <= j < s.len() && keep[j] && s[j] == m[k]);
            } else {
                assert(keep.last());
                assert(m[k] == s[s.len() - 1]);
            }
        }
        assert forall|j: int| 0 <= j < s.len() && keep[j] implies #[trigger] m.contains(s[j]) by {
            if j < s.len() - 1 {
                assert(mp.contains(s.drop_last()[j]));
                let k = choose|k: int| 0 <= k < mp.len() && mp[k] == s.drop_last()[j];
                assert(m[k] == s[j]);
            } else {
                assert(m[m.len() - 1] == s[j]);
            }
        }
    }
}

} // verus!
