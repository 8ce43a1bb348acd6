//! Small facts about remainders by the block size, shared by the two
//! digest widths.

use vstd::prelude::*;
use vstd::arithmetic::div_mod::{
    lemma_fundamental_div_mod, lemma_mod_multiples_vanish, lemma_small_mod,
};

verus! {

/// With `y` a multiple of `m` and `0 <= r < m`, the remainder of
/// `y + r` modulo `m` is exactly `r`.
pub(crate) proof fn lemma_aligned_plus_rem(y: int, r: int, m: int)
    requires
        m > 0,
        y % m == 0,
        0 <= r < m,
    ensures
        (y + r) % m == r,
{
    lemma_fundamental_div_mod(y, m);
    lemma_mod_multiples_vanish(y / m, r, m);
    lemma_small_mod(r as nat, m as nat);
}

/// Stripping a number's remainder modulo `m` leaves a multiple of `m`.
pub(crate) proof fn lemma_strip_rem(n: int, m: int)
    requires
        m > 0,
        n >= 0,
    ensures
        (n - n % m) % m == 0,
        0 <= n % m <= n,
{
    lemma_fundamental_div_mod(n, m);
    lemma_mod_multiples_vanish(n / m, 0, m);
    lemma_small_mod(0, m as nat);
}

/// A positive multiple of `m` is at least `m`.
pub(crate) proof fn lemma_multiple_ge(n: int, m: int)
    requires
        m > 0,
        n > 0,
        n % m == 0,
    ensures
        n >= m,
{
    if n < m {
        lemma_small_mod(n as nat, m as nat);
    }
}

/// Taking one block of `m` off the front of a multiple of `m` leaves a
/// multiple of `m`.
pub(crate) proof fn lemma_multiple_minus_block(n: int, m: int)
    requires
        m > 0,
        n >= m,
        n % m == 0,
    ensures
        (n - m) % m == 0,
{
    vstd::arithmetic::div_mod::lemma_mod_sub_multiples_vanish(n, m);
}

} // verus!
