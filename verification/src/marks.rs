//! Counting the set entries of a boolean mark vector.

use vstd::prelude::*;

verus! {

/// Number of `true` entries in `s`.
pub open spec fn count_true(s: Seq<bool>) -> nat
    decreases s.len(),
{
    if s.len() == 0 {
        0
    } else {
        count_true(s.drop_last()) + if s.last() { 1nat } else { 0nat }
    }
}

pub proof fn lemma_count_true_le_len(s: Seq<bool>)
    ensures
        count_true(s) <= s.len(),
    decreases s.len(),
{
    if s.len() > 0 {
        lemma_count_true_le_len(s.drop_last());
    }
}

pub proof fn lemma_count_true_all_false(s: Seq<bool>)
    requires
        forall|i: int| 0 <= i < s.len() ==> !s[i],
    ensures
        count_true(s) == 0,
    decreases s.len(),
{
    if s.len() > 0 {
        lemma_count_true_all_false(s.drop_last());
    }
}

/// Setting an unset entry raises the count by one.
pub proof fn lemma_count_true_set(s: Seq<bool>, i: int)
    requires
        0 <= i < s.len(),
        !s[i],
    ensures
        count_true(s.update(i, true)) == count_true(s) + 1,
    decreases s.len(),
{
    let t = s.update(i, true);
    if i == s.len() - 1 {
        assert(t.drop_last() =~= s.drop_last());
    } else {
        assert(t.drop_last() =~= s.drop_last().update(i, true));
        lemma_count_true_set(s.drop_last(), i);
    }
}

/// When every mark of `a` is a mark of `b`, `b` counts the marks of `a` and the marks that
/// only `b` has.
pub proof fn lemma_count_true_split(a: Seq<bool>, b: Seq<bool>)
    requires
        a.len() == b.len(),
        forall|i: int| 0 <= i < a.len() && a[i] ==> b[i],
    ensures
        count_true(b) == count_true(a) + count_true(Seq::new(b.len(), |i: int| b[i] && !a[i])),
    decreases a.len(),
{
    let d = Seq::new(b.len(), |i: int| b[i] && !a[i]);
    if a.len() > 0 {
        lemma_count_true_split(a.drop_last(), b.drop_last());
        assert(Seq::new(b.drop_last().len(), |i: int| b.drop_last()[i] && !a.drop_last()[i]) =~= d.drop_last());
    } else {
        assert(d.len() == 0);
    }
}

} // verus!
