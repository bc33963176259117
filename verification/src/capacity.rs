//! Capacity planning: a table's capacity is the smallest power of two that
//! is at least 32 and at least the expected entry count divided by the 90%
//! load-factor bound, i.e. `max(32, next_pow2(ceil(n * 10 / 9)))`.

use vstd::prelude::*;

verus! {

/// Whether `n` is a power of two.
pub open spec fn is_power_of_two(n: nat) -> bool
    decreases n,
{
    if n == 0 {
        false
    } else if n == 1 {
        true
    } else {
        n % 2 == 0 && is_power_of_two(n / 2)
    }
}

/// The least power of two that is at least `n` (and at least 1).
pub open spec fn next_pow2(n: nat) -> nat
    decreases n,
{
    if n <= 1 {
        1
    } else {
        2 * next_pow2(((n + 1) / 2) as nat)
    }
}

/// `ceil(n * 10 / 9)`: the smallest entry budget that keeps the load factor
/// at or under 90% for `n` entries.
pub open spec fn ceil_ten_ninths(n: nat) -> nat {
    ((10 * n + 8) / 9) as nat
}

/// The planned capacity for an expected entry count `n`.
pub open spec fn capacity_for(n: nat) -> nat {
    if next_pow2(ceil_ten_ninths(n)) > 32 {
        next_pow2(ceil_ten_ninths(n))
    } else {
        32
    }
}

pub proof fn lemma_next_pow2_ge(n: nat)
    ensures
        next_pow2(n) >= n,
        next_pow2(n) >= 1,
    decreases n,
{
    if n > 1 {
        lemma_next_pow2_ge(((n + 1) / 2) as nat);
    }
}

pub proof fn lemma_next_pow2_is_pow2(n: nat)
    ensures
        is_power_of_two(next_pow2(n)),
    decreases n,
{
    if n <= 1 {
    } else {
        let m = next_pow2(((n + 1) / 2) as nat);
        lemma_next_pow2_is_pow2(((n + 1) / 2) as nat);
        lemma_next_pow2_ge(((n + 1) / 2) as nat);
        assert((2 * m) % 2 == 0);
        assert((2 * m) / 2 == m);
    }
}

/// Of two powers of two, the smaller divides into the larger: in particular
/// doubling the smaller still does not pass the larger.
pub proof fn lemma_pow2_double_le(q: nat, p: nat)
    requires
        is_power_of_two(q),
        is_power_of_two(p),
        q < p,
    ensures
        2 * q <= p,
    decreases p,
{
    if q == 1 {
        assert(p % 2 == 0);
        assert(p >= 2);
    } else {
        assert(q % 2 == 0);
        assert(p % 2 == 0);
        lemma_pow2_double_le(q / 2, p / 2);
    }
}

/// `next_pow2(n)` is minimal: every power of two at least `n` is at least
/// `next_pow2(n)`.
pub proof fn lemma_next_pow2_minimal(n: nat, p: nat)
    requires
        is_power_of_two(p),
        p >= n,
    ensures
        p >= next_pow2(n),
    decreases n,
{
    if n <= 1 {
    } else {
        let c = ((n + 1) / 2) as nat;
        assert(p >= 2);
        assert(p % 2 == 0);
        if n % 2 == 0 {
            assert(2 * c == n);
        } else {
            assert(2 * c == n + 1);
            assert(p != n) by {
                if p == n {
                    assert(n % 2 == 0);
                }
            }
            assert(p >= n + 1);
        }
        assert(p / 2 >= c);
        lemma_next_pow2_minimal(c, p / 2);
    }
}

/// Compute the planned capacity for an expected entry count: a power of two,
/// at least 32, and large enough that `size` entries keep the load factor at
/// or under 90%.
pub fn plan_capacity(size: usize) -> (cap: usize)
    requires
        size <= usize::MAX / 20,
    ensures
        cap == capacity_for(size as nat),
        is_power_of_two(cap as nat),
        cap >= 32,
        9 * cap >= 10 * size,
        cap >= ceil_ten_ninths(size as nat),
{
    let need = (size * 10 + 8) / 9;
    let mut cap: usize = 32;
    proof {
        assert(is_power_of_two(1nat));
        assert(is_power_of_two(2nat));
        assert(is_power_of_two(4nat));
        assert(is_power_of_two(8nat));
        assert(is_power_of_two(16nat));
        assert(is_power_of_two(32nat));
    }
    while cap < need
        invariant
            need == ceil_ten_ninths(size as nat),
            need <= usize::MAX / 2,
            is_power_of_two(cap as nat),
            32 <= cap,
            cap <= capacity_for(size as nat),
        decreases 2 * need - cap,
    {
        proof {
            lemma_next_pow2_ge(need as nat);
            lemma_next_pow2_is_pow2(need as nat);
            lemma_pow2_double_le(cap as nat, next_pow2(need as nat));
        }
        cap = cap * 2;
    }
    proof {
        lemma_next_pow2_minimal(need as nat, cap as nat);
    }
    cap
}

} // verus!
