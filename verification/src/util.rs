//! Sets of handles below a bound, and how to count them.

use vstd::prelude::*;

verus! {

/// The handles below `n` that satisfy `p`.
pub open spec fn below(n: nat, p: spec_fn(u32) -> bool) -> Set<u32> {
    Set::new(|i: u32| (i as nat) < n && p(i))
}

/// `below(n, p)` is finite and has at most `n` members.
pub proof fn lemma_below_finite(n: nat, p: spec_fn(u32) -> bool)
    ensures
        below(n, p).finite(),
        below(n, p).len() <= n,
    decreases n,
{
    if n == 0 {
        assert(below(n, p) =~= Set::empty());
    } else {
        let m = (n - 1) as nat;
        lemma_below_finite(m, p);
        if m <= u32::MAX && p(m as u32) {
            assert(below(n, p) =~= below(m, p).insert(m as u32));
        } else {
            assert(below(n, p) =~= below(m, p));
        }
    }
}

/// Raising the bound by one adds the handle `n` where it satisfies `p`.
pub proof fn lemma_below_step(n: nat, p: spec_fn(u32) -> bool)
    requires
        n <= u32::MAX,
    ensures
        below(n + 1, p) == (if p(n as u32) {
            below(n, p).insert(n as u32)
        } else {
            below(n, p)
        }),
        below(n + 1, p).len() == below(n, p).len() + (if p(n as u32) {
            1nat
        } else {
            0nat
        }),
{
    lemma_below_finite(n, p);
    if p(n as u32) {
        assert(below(n + 1, p) =~= below(n, p).insert(n as u32));
    } else {
        assert(below(n + 1, p) =~= below(n, p));
    }
}

/// A set of handles below `n` has at most `n` members.
pub proof fn lemma_bounded_set_len(s: Set<u32>, n: nat)
    requires
        forall|i: u32| s.contains(i) ==> (i as nat) < n,
    ensures
        s.finite(),
        s.len() <= n,
{
    let all = below(n, |i: u32| true);
    lemma_below_finite(n, |i: u32| true);
    assert(s.subset_of(all));
    vstd::set_lib::lemma_len_subset(s, all);
}

/// A sequence of distinct handles below `n` has at most `n` elements.
pub proof fn lemma_distinct_len(s: Seq<u32>, n: nat)
    requires
        s.no_duplicates(),
        forall|j: int| 0 <= j < s.len() ==> (s[j] as nat) < n,
    ensures
        s.len() <= n,
        s.to_set().finite(),
        s.to_set().len() == s.len(),
{
    s.unique_seq_to_set();
    lemma_bounded_set_len(s.to_set(), n);
}

} // verus!
