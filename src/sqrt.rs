//! A power-of-two bound on the square root, found by a scan for the highest set bit.

use vstd::arithmetic::div_mod::{lemma_fundamental_div_mod, lemma_mod_pos_bound};
use vstd::arithmetic::power2::{
    lemma2_to64,
    lemma_pow2_adds, lemma_pow2_pos, lemma_pow2_strictly_increases, lemma_pow2_unfold, pow2,
};
use vstd::prelude::*;

use crate::unsigned::Num;

verus! {

/// The index of the highest set bit of `n`, and 0 for `n < 2`.
pub open spec fn highest_bit(n: nat) -> nat
    decreases n,
{
    if n < 2 {
        0
    } else {
        1 + highest_bit(n / 2)
    }
}

/// The bound that `approximated_sqrt` returns: `2^(highest_bit(n) / 2 + 1)`.
pub open spec fn sqrt_bound(n: nat) -> nat {
    pow2(highest_bit(n) / 2 + 1)
}

/// A positive `n` lies between `2^highest_bit(n)` and `2^(highest_bit(n) + 1)`.
pub proof fn lemma_highest_bit_bounds(n: nat)
    requires
        n >= 1,
    ensures
        pow2(highest_bit(n)) <= n < pow2(highest_bit(n) + 1),
    decreases n,
{
    if n < 2 {
        lemma2_to64();
    } else {
        let h = highest_bit(n / 2);
        lemma_highest_bit_bounds(n / 2);
        lemma_pow2_unfold(h + 1);
        lemma_pow2_unfold(h + 2);
    }
}

/// The highest set bit is the one exponent `k` with `2^k <= n < 2^(k + 1)`.
pub proof fn lemma_highest_bit_unique(n: nat, k: nat)
    requires
        pow2(k) <= n < pow2(k + 1),
    ensures
        highest_bit(n) == k,
{
    lemma_pow2_pos(k);
    let h = highest_bit(n);
    lemma_highest_bit_bounds(n);
    if h < k {
        if h + 1 < k {
            lemma_pow2_strictly_increases(h + 1, k);
        }
    } else if h > k {
        if k + 1 < h {
            lemma_pow2_strictly_increases(k + 1, h);
        }
    }
}

/// The bound exceeds the square root: its square is above `n`, so every `r`
/// with `r * r <= n` is below it.
pub proof fn lemma_sqrt_bound_exceeds_root(n: nat)
    ensures
        n < sqrt_bound(n) * sqrt_bound(n),
        forall|r: nat| #![trigger r * r] r * r <= n ==> r < sqrt_bound(n),
{
    let h = highest_bit(n);
    let e = h / 2 + 1;
    let b = sqrt_bound(n);
    lemma_pow2_adds(e, e);
    if n >= 1 {
        lemma_highest_bit_bounds(n);
    } else {
        lemma_pow2_pos(h + 1);
    }
    if h + 1 < e + e {
        lemma_pow2_strictly_increases(h + 1, e + e);
    }
    assert(n < b * b);
    assert forall|r: nat| #![trigger r * r] r * r <= n implies r < b by {
        if r >= b {
            assert(r * r >= b * b) by (nonlinear_arith)
                requires
                    r >= b,
            ;
        }
    }
}

/// A value below `2^w` has its highest set bit below `w`, so its bound is at
/// most `2^(w / 2)` for an even `w`.
pub proof fn lemma_sqrt_bound_fits(n: nat, w: nat)
    requires
        n < pow2(w),
        w >= 2,
        w % 2 == 0,
    ensures
        highest_bit(n) < w,
        sqrt_bound(n) <= pow2(w / 2),
{
    let h = highest_bit(n);
    if n >= 1 {
        lemma_highest_bit_bounds(n);
        if h >= w {
            if h > w {
                lemma_pow2_strictly_increases(w, h);
            }
        }
    }
    if h / 2 + 1 < w / 2 {
        lemma_pow2_strictly_increases(h / 2 + 1, w / 2);
    }
}

/// A power of two at least the square root of `n`: `2^(h / 2 + 1)`, where `h`
/// is the index of the highest set bit of `n` (taken as 0 for 0 and 1).
pub fn approximated_sqrt<T: Num>(n: T) -> (r: T)
    ensures
        r.val() == pow2(highest_bit(n.val()) / 2 + 1),
        r.val() == sqrt_bound(n.val()),
{
    proof {
        T::lemma_width();
        n.lemma_bounded();
    }
    let mut num_bits: u32 = T::bit_width() - 1;
    while num_bits > 0 && !n.bit(num_bits)
        invariant
            (num_bits as nat) < T::width(),
            n.val() < pow2(num_bits as nat + 1),
        decreases num_bits,
    {
        proof {
            let p = pow2(num_bits as nat);
            lemma_pow2_pos(num_bits as nat);
            lemma_pow2_unfold(num_bits as nat + 1);
            lemma_fundamental_div_mod(n.val() as int, p as int);
            let q = n.val() / p;
            assert(q < 2) by (nonlinear_arith)
                requires
                    n.val() == p * q + n.val() % p,
                    n.val() < 2 * p,
                    n.val() % p >= 0,
            ;
            assert(q == 0);
            lemma_mod_pos_bound(n.val() as int, p as int);
            assert(p * q == 0) by (nonlinear_arith)
                requires
                    q == 0,
            ;
        }
        num_bits = num_bits - 1;
    }
    proof {
        let k = num_bits as nat;
        lemma_pow2_pos(k);
        if n.val() / pow2(k) % 2 == 1 {
            lemma_fundamental_div_mod(n.val() as int, pow2(k) as int);
            let q = n.val() / pow2(k);
            assert(n.val() >= pow2(k)) by (nonlinear_arith)
                requires
                    n.val() == pow2(k) * q + n.val() % pow2(k),
                    q >= 1,
                    n.val() % pow2(k) >= 0,
            ;
            lemma_highest_bit_unique(n.val(), k);
        } else {
            assert(k == 0);
            lemma2_to64();
        }
        assert(num_bits / 2 + 1 < T::width());
    }
    T::power_of_two(num_bits / 2 + 1)
}

} // verus!
