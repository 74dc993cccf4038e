//! Facts about remainders that the rings share.

use vstd::prelude::*;

verus! {

/// Numbers that lie fewer than `cap` apart have different remainders.
pub proof fn lemma_remainders_distinct(head: int, i: int, j: int, cap: int)
    requires
        0 <= i < cap,
        0 <= j < cap,
        i != j,
    ensures
        (head + i) % cap != (head + j) % cap,
{
    if (head + i) % cap == (head + j) % cap {
        let qi = (head + i) / cap;
        let qj = (head + j) / cap;
        vstd::arithmetic::div_mod::lemma_fundamental_div_mod(head + i, cap);
        vstd::arithmetic::div_mod::lemma_fundamental_div_mod(head + j, cap);
        assert(i - j == cap * qi - cap * qj);
        assert(cap * qi - cap * qj == cap * (qi - qj)) by (nonlinear_arith);
        assert(qi - qj >= 1 ==> cap * (qi - qj) >= cap) by (nonlinear_arith)
            requires
                cap > 0,
        ;
        assert(qi - qj <= -1 ==> cap * (qi - qj) <= -cap) by (nonlinear_arith)
            requires
                cap > 0,
        ;
    }
}

} // verus!
