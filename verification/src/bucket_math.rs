//! Index arithmetic for the wrap-around bucket array: probe positions,
//! neighbour indices and power-of-two capacities.

use vstd::prelude::*;
use vstd::arithmetic::div_mod::lemma_mod_division_less_than_divisor;
use vstd::arithmetic::div_mod::lemma_fundamental_div_mod;
use vstd::arithmetic::div_mod::lemma_fundamental_div_mod_converse;

verus! {

/// The ideal bucket of a hash in an array of `cap` buckets.
pub open spec fn ideal_index(hash: u32, cap: int) -> int {
    (hash as int) % cap
}

/// The bucket an entry with this hash occupies when it sits `distance`
/// buckets past its ideal bucket, wrapping at `cap`.
pub open spec fn slot_index(hash: u32, distance: int, cap: int) -> int {
    (ideal_index(hash, cap) + distance) % cap
}

/// The next bucket index, wrapping at `cap`.
pub open spec fn next_index(i: int, cap: int) -> int {
    if i == cap - 1 {
        0
    } else {
        i + 1
    }
}

/// The previous bucket index, wrapping at `cap`.
pub open spec fn prev_index(i: int, cap: int) -> int {
    if i == 0 {
        cap - 1
    } else {
        i - 1
    }
}

/// How many buckets separate `j` from the ideal bucket of `hash`, walking
/// forward (with wrap-around) from that ideal bucket.
pub open spec fn probe_offset(hash: u32, j: int, cap: int) -> int {
    if j >= ideal_index(hash, cap) {
        j - ideal_index(hash, cap)
    } else {
        j - ideal_index(hash, cap) + cap
    }
}

/// The bucket `distance` steps past bucket `base`, wrapping at `cap`.
pub open spec fn wrap_index(base: int, distance: int, cap: int) -> int {
    (base + distance) % cap
}

/// A wrapped walk always lands inside the array.
pub proof fn lemma_wrap_index_bound(base: int, distance: int, cap: int)
    requires
        cap >= 1,
    ensures
        0 <= wrap_index(base, distance, cap) < cap,
{
    lemma_mod_division_less_than_divisor(base + distance, cap);
}

/// Walking zero steps stays put.
pub proof fn lemma_wrap_index_zero(base: int, cap: int)
    requires
        cap >= 1,
        0 <= base < cap,
    ensures
        wrap_index(base, 0, cap) == base,
{
    lemma_fundamental_div_mod_converse(base, cap, 0, base);
}

/// Walking one more step moves to the next wrapped index.
pub proof fn lemma_wrap_index_step(base: int, distance: int, cap: int)
    requires
        cap >= 1,
        base >= 0,
        distance >= 0,
    ensures
        wrap_index(base, distance + 1, cap) == next_index(wrap_index(base, distance, cap), cap),
        prev_index(wrap_index(base, distance + 1, cap), cap) == wrap_index(base, distance, cap),
{
    lemma_wrap_index_bound(base, distance, cap);
    lemma_wrap_index_bound(base, distance + 1, cap);
    lemma_mod_step(base + distance, cap);
}

/// Distinct walk lengths below `cap` reach distinct buckets.
pub proof fn lemma_wrap_index_injective(base: int, a: int, b: int, cap: int)
    requires
        cap >= 1,
        base >= 0,
        0 <= a < b < cap,
    ensures
        wrap_index(base, a, cap) != wrap_index(base, b, cap),
{
    if wrap_index(base, a, cap) == wrap_index(base, b, cap) {
        lemma_fundamental_div_mod(base + a, cap);
        lemma_fundamental_div_mod(base + b, cap);
        let qa = (base + a) / cap;
        let qb = (base + b) / cap;
        assert(b - a == cap * qb - cap * qa);
        assert(cap * qb - cap * qa == (qb - qa) * cap) by (nonlinear_arith);
        if qb - qa <= 0 {
            assert((qb - qa) * cap <= 0) by (nonlinear_arith)
                requires
                    qb - qa <= 0 && cap >= 1,
            ;
        } else {
            assert((qb - qa) * cap >= cap) by (nonlinear_arith)
                requires
                    qb - qa >= 1 && cap >= 1,
            ;
        }
        assert(false);
    }
}

/// How far bucket `j` sits past bucket `base`, walking forward with
/// wrap-around.
pub open spec fn offset_from(base: int, j: int, cap: int) -> int {
    if j >= base {
        j - base
    } else {
        j - base + cap
    }
}

/// Every bucket is reached from `base` within `cap` wrapped steps.
pub proof fn lemma_offset_from(base: int, j: int, cap: int)
    requires
        cap >= 1,
        0 <= base < cap,
        0 <= j < cap,
    ensures
        0 <= offset_from(base, j, cap) < cap,
        wrap_index(base, offset_from(base, j, cap), cap) == j,
{
    let t = offset_from(base, j, cap);
    if j >= base {
        lemma_fundamental_div_mod_converse(base + t, cap, 0, j);
    } else {
        lemma_fundamental_div_mod_converse(base + t, cap, 1, j);
    }
}

/// Whether `n` is a power of two.
pub open spec fn is_pow2(n: int) -> bool
    decreases n,
{
    if n <= 0 {
        false
    } else if n == 1 {
        true
    } else {
        n % 2 == 0 && is_pow2(n / 2)
    }
}

/// A probe position always lands inside the array.
pub proof fn lemma_slot_index_bound(hash: u32, distance: int, cap: int)
    requires
        cap >= 1,
    ensures
        0 <= slot_index(hash, distance, cap) < cap,
        0 <= ideal_index(hash, cap) < cap,
{
    lemma_mod_division_less_than_divisor(hash as int, cap);
    lemma_mod_division_less_than_divisor(ideal_index(hash, cap) + distance, cap);
}

/// Taking one more probe step moves to the next wrapped index.
pub proof fn lemma_mod_step(x: int, cap: int)
    requires
        cap >= 1,
    ensures
        (x + 1) % cap == next_index(x % cap, cap),
{
    lemma_mod_division_less_than_divisor(x, cap);
    lemma_fundamental_div_mod(x, cap);
    let q = x / cap;
    let r = x % cap;
    if r == cap - 1 {
        assert((q + 1) * cap == cap * q + cap) by (nonlinear_arith);
        lemma_fundamental_div_mod_converse(x + 1, cap, q + 1, 0);
    } else {
        assert(q * cap == cap * q) by (nonlinear_arith);
        lemma_fundamental_div_mod_converse(x + 1, cap, q, r + 1);
    }
}

/// Probing one bucket farther lands on the next wrapped index.
pub proof fn lemma_slot_index_step(hash: u32, distance: int, cap: int)
    requires
        cap >= 1,
        distance >= 0,
    ensures
        slot_index(hash, distance + 1, cap) == next_index(slot_index(hash, distance, cap), cap),
        prev_index(slot_index(hash, distance + 1, cap), cap) == slot_index(hash, distance, cap),
{
    lemma_slot_index_bound(hash, distance, cap);
    lemma_slot_index_bound(hash, distance + 1, cap);
    lemma_mod_step(ideal_index(hash, cap) + distance, cap);
}

/// Probe distance zero is the ideal bucket itself.
pub proof fn lemma_slot_index_zero(hash: u32, cap: int)
    requires
        cap >= 1,
    ensures
        slot_index(hash, 0, cap) == ideal_index(hash, cap),
{
    lemma_mod_division_less_than_divisor(hash as int, cap);
    lemma_fundamental_div_mod_converse(ideal_index(hash, cap), cap, 0, ideal_index(hash, cap));
}

/// Every bucket is reached from any ideal bucket within `cap` probe steps:
/// bucket `j` lies exactly `probe_offset(hash, j, cap)` steps from the ideal
/// bucket of `hash`.
pub proof fn lemma_probe_offset(hash: u32, j: int, cap: int)
    requires
        cap >= 1,
        0 <= j < cap,
    ensures
        0 <= probe_offset(hash, j, cap) < cap,
        slot_index(hash, probe_offset(hash, j, cap), cap) == j,
{
    lemma_mod_division_less_than_divisor(hash as int, cap);
    let a = ideal_index(hash, cap);
    let t = probe_offset(hash, j, cap);
    if j >= a {
        lemma_fundamental_div_mod_converse(a + t, cap, 0, j);
    } else {
        lemma_fundamental_div_mod_converse(a + t, cap, 1, j);
    }
}

/// Doubling a power of two gives a power of two.
pub proof fn lemma_pow2_times_two(a: int)
    requires
        is_pow2(a),
    ensures
        is_pow2(2 * a),
{
    assert((2 * a) / 2 == a);
    assert((2 * a) % 2 == 0);
}

/// Two to the power `e`.
pub open spec fn pow2_up_to(e: int) -> int
    decreases e,
{
    if e <= 0 {
        1
    } else {
        2 * pow2_up_to(e - 1)
    }
}

proof fn lemma_pow2_up_to(e: int)
    requires
        e >= 0,
    ensures
        is_pow2(pow2_up_to(e)),
    decreases e,
{
    if e > 0 {
        lemma_pow2_up_to(e - 1);
        lemma_pow2_times_two(pow2_up_to(e - 1));
    }
}

/// The largest capacity the table uses, `0x4000_0000`, is a power of two.
pub proof fn lemma_large_pow2()
    ensures
        is_pow2(0x4000_0000),
{
    lemma_pow2_up_to(30);
    assert(pow2_up_to(30) == 0x4000_0000) by {
        reveal_with_fuel(pow2_up_to, 31);
    }
}

/// Between one power of two and a larger one there is room to double.
pub proof fn lemma_pow2_double(a: int, b: int)
    requires
        is_pow2(a),
        is_pow2(b),
        a < b,
    ensures
        2 * a <= b,
    decreases a,
{
    if a == 1 {
        assert(b >= 2);
    } else {
        lemma_pow2_double(a / 2, b / 2);
    }
}

} // verus!
