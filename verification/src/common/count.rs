use vstd::prelude::*;

verus! {

/// How many of the flags are set.
pub open spec fn count_true(flags: Seq<bool>) -> nat
    decreases flags.len(),
{
    if flags.len() == 0 {
        0
    } else {
        count_true(flags.drop_last()) + if flags.last() {
            1nat
        } else {
            0nat
        }
    }
}

/// Changing one flag changes the count by that flag alone.
pub proof fn lemma_count_update(flags: Seq<bool>, i: int, flag: bool)
    requires
        0 <= i < flags.len(),
    ensures
        count_true(flags.update(i, flag)) + (if flags[i] { 1nat } else { 0nat }) == count_true(flags) + (if flag { 1nat } else { 0nat }),
    decreases flags.len(),
{
    let updated = flags.update(i, flag);
    if i == flags.len() - 1 {
        assert(updated.drop_last() =~= flags.drop_last());
    } else {
        lemma_count_update(flags.drop_last(), i, flag);
        assert(updated.drop_last() =~= flags.drop_last().update(i, flag));
    }
}

/// The count is at most the number of flags, and a set flag makes it positive.
pub proof fn lemma_count_bounds(flags: Seq<bool>)
    ensures
        count_true(flags) <= flags.len(),
        count_true(flags) == 0 <==> (forall|i: int| 0 <= i < flags.len() ==> !flags[i]),
    decreases flags.len(),
{
    if flags.len() > 0 {
        lemma_count_bounds(flags.drop_last());
        if count_true(flags) == 0 {
            assert forall|i: int| 0 <= i < flags.len() implies !flags[i] by {
                if i < flags.len() - 1 {
                    assert(flags.drop_last()[i] == flags[i]);
                }
            }
        }
        if forall|i: int| 0 <= i < flags.len() ==> !flags[i] {
            assert forall|i: int| 0 <= i < flags.drop_last().len() implies !flags.drop_last()[i] by {
                assert(flags.drop_last()[i] == flags[i]);
            }
        }
    }
}

/// Where every flag is set, the count is the number of flags.
pub proof fn lemma_count_all(flags: Seq<bool>)
    requires
        forall|i: int| 0 <= i < flags.len() ==> flags[i],
    ensures
        count_true(flags) == flags.len(),
    decreases flags.len(),
{
    if flags.len() > 0 {
        assert forall|i: int| 0 <= i < flags.drop_last().len() implies flags.drop_last()[i] by {
            assert(flags.drop_last()[i] == flags[i]);
        }
        lemma_count_all(flags.drop_last());
    }
}

/// Where each position is set in exactly one of three rows of flags, the
/// three counts add up to the length.
pub proof fn lemma_count_partition(a: Seq<bool>, b: Seq<bool>, c: Seq<bool>)
    requires
        a.len() == b.len(),
        b.len() == c.len(),
        forall|i: int|
            0 <= i < a.len() ==> (a[i] || b[i] || c[i]) && !(a[i] && b[i]) && !(a[i] && c[i]) && !(
            b[i] && c[i]),
    ensures
        count_true(a) + count_true(b) + count_true(c) == a.len(),
    decreases a.len(),
{
    if a.len() > 0 {
        let (a0, b0, c0) = (a.drop_last(), b.drop_last(), c.drop_last());
        assert forall|i: int| 0 <= i < a0.len() implies (a0[i] || b0[i] || c0[i]) && !(a0[i]
            && b0[i]) && !(a0[i] && c0[i]) && !(b0[i] && c0[i]) by {
            assert(a0[i] == a[i] && b0[i] == b[i] && c0[i] == c[i]);
        }
        lemma_count_partition(a0, b0, c0);
        let last = a.len() - 1;
        assert(a.last() == a[last] && b.last() == b[last] && c.last() == c[last]);
    }
}

} // verus!
