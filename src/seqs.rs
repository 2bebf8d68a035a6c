//! Lemmas on sequences shared by the filtering loops.

use vstd::prelude::*;

verus! {

broadcast use vstd::seq_lib::group_seq_properties;

/// One step of a loop that keeps, in order, the items of `all` that satisfy
/// `pred`: `before` holds those of `all[0..i]`, and `after` adds `all[i]` when
/// it satisfies `pred`.
pub proof fn lemma_filter_step<T>(
    all: Seq<T>,
    before: Seq<T>,
    after: Seq<T>,
    i: int,
    pred: spec_fn(T) -> bool,
)
    requires
        0 <= i < all.len(),
        all.no_duplicates(),
        before.no_duplicates(),
        forall|x: T| before.contains(x) <==> (all.subrange(0, i).contains(x) && pred(x)),
        pred(all[i]) ==> after == before.push(all[i]),
        !pred(all[i]) ==> after == before,
    ensures
        after.no_duplicates(),
        forall|x: T| after.contains(x) <==> (all.subrange(0, i + 1).contains(x) && pred(x)),
{
    let s0 = all.subrange(0, i);
    let s1 = all.subrange(0, i + 1);
    if pred(all[i]) {
        assert forall|j: int| 0 <= j < before.len() implies before[j] != all[i] by {
            assert(before.contains(before[j]));
            let m = choose|m: int| 0 <= m < s0.len() && #[trigger] s0[m] == before[j];
            assert(all[m] == before[j]);
        }
    }
    assert forall|x: T| after.contains(x) <==> (s1.contains(x) && pred(x)) by {
        if s1.contains(x) {
            let m = choose|m: int| 0 <= m < s1.len() && #[trigger] s1[m] == x;
            if m < i {
                assert(s0[m] == x);
            }
        }
        if s0.contains(x) {
            let m = choose|m: int| 0 <= m < s0.len() && #[trigger] s0[m] == x;
            assert(s1[m] == x);
        }
        if after.contains(x) && !before.contains(x) {
            assert(x == all[i]);
            assert(s1[i] == x);
        }
    }
}

/// A whole sequence is its own prefix of full length.
pub proof fn lemma_full_prefix<T>(s: Seq<T>)
    ensures
        s.subrange(0, s.len() as int) == s,
{
    assert(s.subrange(0, s.len() as int) =~= s);
}

} // verus!
