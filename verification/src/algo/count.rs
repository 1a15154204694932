//! Counting arguments: mixed-radix packing of bounded integers and the
//! pigeonhole principle on sequences of integers.

use vstd::prelude::*;

verus! {

/// Two digits `a` and `b`, the second below `radix`, packed into one integer.
pub open spec fn pack(a: int, b: int, radix: int) -> int {
    a * radix + b
}

/// A packed pair of bounded digits lies below the product of the bounds.
pub proof fn lemma_pack_range(a: int, bound: int, b: int, radix: int)
    requires
        0 <= a < bound,
        0 <= b < radix,
    ensures
        0 <= pack(a, b, radix) < bound * radix,
{
    assert(0 <= a * radix) by (nonlinear_arith)
        requires
            0 <= a,
            0 <= radix,
    ;
    assert(a * radix + radix <= bound * radix) by (nonlinear_arith)
        requires
            a + 1 <= bound,
            0 <= radix,
    ;
}

/// Packing is injective on digits below the radix.
pub proof fn lemma_pack_unique(a1: int, b1: int, a2: int, b2: int, radix: int)
    requires
        0 <= b1 < radix,
        0 <= b2 < radix,
        pack(a1, b1, radix) == pack(a2, b2, radix),
    ensures
        a1 == a2,
        b1 == b2,
{
    if a1 < a2 {
        assert(a1 * radix + radix <= a2 * radix) by (nonlinear_arith)
            requires
                a1 + 1 <= a2,
                0 <= radix,
        ;
    } else if a2 < a1 {
        assert(a2 * radix + radix <= a1 * radix) by (nonlinear_arith)
            requires
                a2 + 1 <= a1,
                0 <= radix,
        ;
    }
}

/// Every entry of `s` lies in `[0, n)`.
pub open spec fn all_below(s: Seq<int>, n: int) -> bool {
    forall|i: int| 0 <= i < s.len() ==> 0 <= #[trigger] s[i] < n
}

/// Pairwise distinct integers from `[0, n)` are at most `n` many.
pub proof fn lemma_distinct_bounded(s: Seq<int>, n: int)
    requires
        0 <= n,
        all_below(s, n),
        s.no_duplicates(),
    ensures
        s.len() <= n,
{
    s.unique_seq_to_set();
    vstd::set_lib::lemma_int_range(0, n);
    assert(s.to_set().subset_of(vstd::set_lib::set_int_range(0, n))) by {
        assert forall|v: int| s.to_set().contains(v) implies vstd::set_lib::set_int_range(
            0,
            n,
        ).contains(v) by {
            let i = choose|i: int| 0 <= i < s.len() && s[i] == v;
            assert(0 <= s[i] < n);
        }
    }
    vstd::set_lib::lemma_len_subset(s.to_set(), vstd::set_lib::set_int_range(0, n));
}

/// More than `n` integers from `[0, n)` hold some value twice.
pub proof fn lemma_pigeonhole(s: Seq<int>, n: int)
    requires
        0 <= n,
        all_below(s, n),
        s.len() > n,
    ensures
        exists|i: int, j: int| 0 <= i < j < s.len() && s[i] == s[j],
{
    if !s.no_duplicates() {
        let (i, j) = choose|i: int, j: int|
            0 <= i < s.len() && 0 <= j < s.len() && i != j && s[i] == s[j];
        if i < j {
            assert(0 <= i < j < s.len() && s[i] == s[j]);
        } else {
            assert(0 <= j < i < s.len() && s[j] == s[i]);
        }
    } else {
        lemma_distinct_bounded(s, n);
    }
}

} // verus!
