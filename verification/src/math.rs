//! Alignment arithmetic shared by layout computation and the image writer.

use vstd::prelude::*;

verus! {

/// `n` rounded up to the next multiple of `alignment`.
/// An alignment of 0 or 1 leaves `n` unchanged.
pub open spec fn spec_align_up(n: int, alignment: int) -> int {
    if alignment <= 1 {
        n
    } else if n % alignment == 0 {
        n
    } else {
        n - n % alignment + alignment
    }
}

/// The alignment actually used for computation: 0 is treated as 1.
pub open spec fn spec_eff_align(alignment: int) -> int {
    if alignment <= 1 {
        1
    } else {
        alignment
    }
}

pub proof fn lemma_align_up_bounds(n: int, alignment: int)
    requires
        n >= 0,
        alignment >= 0,
    ensures
        spec_align_up(n, alignment) >= n,
        spec_align_up(n, alignment) <= n + spec_eff_align(alignment) - 1,
        spec_align_up(n, alignment) % spec_eff_align(alignment) == 0,
{
    if alignment <= 1 {
    } else {
        let a = alignment;
        vstd::arithmetic::div_mod::lemma_mod_bound(n, a);
        if n % a == 0 {
        } else {
            assert((n - n % a + a) % a == 0) by {
                vstd::arithmetic::div_mod::lemma_mod_multiples_vanish(
                    n / a + 1,
                    0,
                    a,
                );
                vstd::arithmetic::div_mod::lemma_fundamental_div_mod(n, a);
                assert(n - n % a + a == (n / a + 1) * a + 0) by (nonlinear_arith)
                    requires n == a * (n / a) + n % a;
            }
        }
    }
}

/// Aligning an already-aligned value changes nothing.
pub proof fn lemma_align_up_idempotent(n: int, alignment: int)
    requires
        n >= 0,
        alignment >= 0,
        n % spec_eff_align(alignment) == 0,
    ensures
        spec_align_up(n, alignment) == n,
{
}

pub fn align_up(n: u64, alignment: u64) -> (r: u64)
    requires
        n + spec_eff_align(alignment as int) - 1 <= u64::MAX,
    ensures
        r == spec_align_up(n as int, alignment as int),
{
    proof {
        lemma_align_up_bounds(n as int, alignment as int);
    }
    if alignment <= 1 {
        n
    } else {
        let over = n % alignment;
        if over == 0 {
            n
        } else {
            proof {
                vstd::arithmetic::div_mod::lemma_mod_bound(n as int, alignment as int);
                vstd::arithmetic::div_mod::lemma_mod_decreases(n as nat, alignment as nat);
            }
            n - over + alignment
        }
    }
}

} // verus!
