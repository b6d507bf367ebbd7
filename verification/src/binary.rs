//! Powers of two and the lowest set bit of an index.
//!
//! Links are laid out like a binary-indexed tree: the link that ends at node
//! `n` spans `low_bit(n)` nodes. Everything the rest of the crate needs to know
//! about that layout is proved here, over `nat`, so that no other module has to
//! reason about bit patterns.

use vstd::arithmetic::div_mod::{lemma_fundamental_div_mod, lemma_mod_multiples_basic};
use vstd::arithmetic::power2::{
    lemma2_to64, lemma2_to64_rest, lemma_pow2_adds, lemma_pow2_pos, lemma_pow2_strictly_increases,
    lemma_pow2_unfold, pow2,
};
use vstd::bits::{lemma_usize_shl_is_mul, lemma_usize_shr_is_div};
use vstd::prelude::*;

verus! {

/// The largest power of two that divides `n`; zero for `n == 0`.
pub open spec fn low_bit(n: nat) -> nat
    decreases n,
{
    if n == 0 {
        0
    } else if n % 2 == 1 {
        1
    } else {
        2 * low_bit(n / 2)
    }
}

/// Whether the binary digit of weight `2^d` is set in `n`.
pub open spec fn bit_set(n: nat, d: nat) -> bool {
    (n / pow2(d)) % 2 == 1
}

/// `n` with its `d` lowest binary digits cleared.
pub open spec fn floor_to(n: nat, d: nat) -> nat {
    ((n / pow2(d)) * pow2(d)) as nat
}

/// `2 * 2^d == 2^(d + 1)`, and both are positive.
pub proof fn lemma_pow2_double(d: nat)
    ensures
        pow2(d + 1) == 2 * pow2(d),
        pow2(d) > 0,
{
    lemma_pow2_unfold(d + 1);
    lemma_pow2_pos(d);
}

/// Half of a multiple of `2 * p` is a multiple of `p`.
proof fn lemma_halve_multiple(m: nat, p: nat)
    requires
        p > 0,
        m % (2 * p) == 0,
    ensures
        m % 2 == 0,
        (m / 2) % p == 0,
        m == 2 * (m / 2),
{
    let k: int = m as int / (2 * p) as int;
    lemma_fundamental_div_mod(m as int, (2 * p) as int);
    assert((2 * p) * k == 2 * (k * p)) by (nonlinear_arith);
    lemma_mod_multiples_basic(k, p as int);
}

/// Twice a multiple of `p` is a multiple of `2 * p`.
proof fn lemma_double_multiple(b: nat, p: nat)
    requires
        p > 0,
        b % p == 0,
    ensures
        (2 * b) % (2 * p) == 0,
{
    let k: int = b as int / (p as int);
    lemma_fundamental_div_mod(b as int, p as int);
    assert(2 * (p * k) == k * (2 * p)) by (nonlinear_arith);
    lemma_mod_multiples_basic(k, (2 * p) as int);
}

/// A multiple of `2 * p` is a multiple of `p`.
pub proof fn lemma_multiple_of_double(m: nat, p: nat)
    requires
        p > 0,
        m % (2 * p) == 0,
    ensures
        m % p == 0,
{
    let k: int = m as int / (2 * p) as int;
    lemma_fundamental_div_mod(m as int, (2 * p) as int);
    assert((2 * p) * k == (2 * k) * p) by (nonlinear_arith);
    lemma_mod_multiples_basic(2 * k, p as int);
}

/// A power of two that fits in `usize` can be doubled, less one, without
/// leaving `usize`.
pub proof fn lemma_double_fits(k: nat)
    requires
        pow2(k) <= usize::MAX,
    ensures
        2 * pow2(k) - 1 <= usize::MAX,
{
    lemma_exponent_fits(k);
    lemma2_to64();
    lemma2_to64_rest();
    lemma_pow2_double(k);
    if k + 1 < usize::BITS {
        lemma_pow2_strictly_increases(k + 1, usize::BITS as nat);
    }
}

/// Different exponents give different powers of two.
pub proof fn lemma_pow2_injective(first: nat, second: nat)
    requires
        pow2(first) == pow2(second),
    ensures
        first == second,
{
    if first < second {
        lemma_pow2_strictly_increases(first, second);
    } else if second < first {
        lemma_pow2_strictly_increases(second, first);
    }
}

/// An exponent whose power fits in `usize` is smaller than the word size.
pub proof fn lemma_exponent_fits(d: nat)
    requires
        pow2(d) <= usize::MAX,
    ensures
        d < usize::BITS,
{
    lemma2_to64();
    lemma2_to64_rest();
    if d >= usize::BITS {
        if d > usize::BITS {
            lemma_pow2_strictly_increases(usize::BITS as nat, d);
        }
    }
}

/// For positive `n`: `low_bit(n)` is positive, at most `n`, and divides `n`.
pub proof fn lemma_low_bit_divides(n: nat)
    requires
        n > 0,
    ensures
        1 <= low_bit(n) <= n,
        n % low_bit(n) == 0,
    decreases n,
{
    if n % 2 == 0 {
        let h: nat = n / 2;
        lemma_low_bit_divides(h);
        lemma_double_multiple(h, low_bit(h));
    }
}

/// Adding `2^d` to a multiple of `2^(d+1)` gives a number whose lowest set bit is `2^d`.
pub proof fn lemma_low_bit_step(m: nat, d: nat)
    requires
        m % pow2(d + 1) == 0,
    ensures
        low_bit(m + pow2(d)) == pow2(d),
    decreases d,
{
    lemma_pow2_double(d);
    if d == 0 {
        assert(pow2(0) == 1) by {
            lemma2_to64();
        }
        assert(pow2(1) == 2) by {
            lemma2_to64();
        }
    } else {
        let e: nat = (d - 1) as nat;
        lemma_pow2_double(e);
        let p: nat = pow2(e);
        let h: nat = m / 2;
        lemma_halve_multiple(m, 2 * p);
        lemma_low_bit_step(h, e);
    }
}

/// The lowest set bit of a power of two is that power itself.
pub proof fn lemma_low_bit_of_power(d: nat)
    ensures
        low_bit(pow2(d)) == pow2(d),
{
    lemma_pow2_double(d);
    assert(0nat % pow2(d + 1) == 0) by (nonlinear_arith)
        requires
            pow2(d + 1) > 0,
    ;
    lemma_low_bit_step(0, d);
}

/// A positive multiple of `2^d` has a lowest set bit that is a multiple of `2^d` too.
pub proof fn lemma_low_bit_of_multiple(n: nat, d: nat)
    requires
        n > 0,
        n % pow2(d) == 0,
    ensures
        low_bit(n) % pow2(d) == 0,
        low_bit(n) >= pow2(d),
    decreases d,
{
    lemma_pow2_pos(d);
    lemma_low_bit_divides(n);
    if d == 0 {
        assert(pow2(0) == 1) by {
            lemma2_to64();
        }
    } else {
        let e: nat = (d - 1) as nat;
        lemma_pow2_double(e);
        let p: nat = pow2(e);
        let h: nat = n / 2;
        lemma_halve_multiple(n, p);
        lemma_low_bit_of_multiple(h, e);
        let b: nat = low_bit(h);
        lemma_double_multiple(b, p);
    }
}

/// Below `2^k`, adding `2^k` does not change the lowest set bit.
pub proof fn lemma_low_bit_above_power(k: nat, m: nat)
    requires
        0 < m < pow2(k),
    ensures
        low_bit(pow2(k) + m) == low_bit(m),
    decreases k,
{
    if k == 0 {
        assert(pow2(0) == 1) by {
            lemma2_to64();
        }
    } else {
        let e: nat = (k - 1) as nat;
        lemma_pow2_double(e);
        if m % 2 == 0 {
            lemma_low_bit_above_power(e, m / 2);
        }
    }
}

/// `floor_to(n, d)` is the multiple of `2^d` at or just below `n`.
pub proof fn lemma_floor_to(n: nat, d: nat)
    ensures
        floor_to(n, d) <= n < floor_to(n, d) + pow2(d),
        floor_to(n, d) % pow2(d) == 0,
        floor_to(n, d) / pow2(d) == n / pow2(d),
{
    lemma_pow2_pos(d);
    let p: nat = pow2(d);
    let q: nat = n / p;
    assert(q * p <= n < q * p + p && (q * p) % p == 0 && (q * p) / p == q) by (nonlinear_arith)
        requires
            p > 0,
            q == n / p,
    ;
}

/// Clearing one more digit changes nothing when that digit is clear, and
/// removes `2^d` when it is set.
pub proof fn lemma_floor_to_next(n: nat, d: nat)
    ensures
        floor_to(n, d + 1) == if bit_set(n, d) {
            floor_to(n, d) - pow2(d)
        } else {
            floor_to(n, d) as int
        },
        floor_to(n, d + 1) % pow2(d + 1) == 0,
{
    lemma_pow2_double(d);
    let p: nat = pow2(d);
    let q: nat = n / p;
    lemma_floor_to(n, d + 1);
    assert(n / (2 * p) == q / 2) by (nonlinear_arith)
        requires
            p > 0,
            q == n / p,
    ;
    assert((q / 2) * (2 * p) == (q - q % 2) * p) by (nonlinear_arith)
        requires
            p > 0,
    ;
    assert((q - q % 2) * p == q * p - (q % 2) * p) by (nonlinear_arith);
    if q % 2 == 1 {
        assert((q % 2) * p == p) by (nonlinear_arith)
            requires
                q % 2 == 1,
        ;
    } else {
        assert((q % 2) * p == 0) by (nonlinear_arith)
            requires
                q % 2 == 0,
        ;
    }
}

/// What the digit of weight `2^d` says about a multiple of `2^d`: set, the
/// number less `2^d` is a multiple of `2^(d + 1)`; clear, the number itself is.
pub proof fn lemma_aligned_bit(n: nat, d: nat)
    requires
        n % pow2(d) == 0,
    ensures
        bit_set(n, d) ==> n >= pow2(d) && (n - pow2(d)) % (pow2(d + 1) as int) == 0,
        !bit_set(n, d) ==> n % pow2(d + 1) == 0,
{
    lemma_floor_to(n, d);
    lemma_floor_to_next(n, d);
    lemma_pow2_pos(d);
    let p: int = pow2(d) as int;
    let whole: int = n as int;
    assert((whole / p) * p == whole) by (nonlinear_arith)
        requires
            whole % p == 0,
            p > 0,
    ;
}

/// The only multiple of `2^d` whose block of `2^d` slots holds slot `i` is
/// `floor_to(i, d) + 2^d`.
pub proof fn lemma_block_of_slot(n: nat, i: nat, d: nat)
    requires
        n % pow2(d) == 0,
        n >= pow2(d),
        n - pow2(d) <= i < n,
    ensures
        n == floor_to(i, d) + pow2(d),
{
    lemma_pow2_pos(d);
    let p: nat = pow2(d);
    let q: nat = i / p;
    let r: nat = n / p;
    assert(n == r * p) by (nonlinear_arith)
        requires
            n % p == 0,
            r == n / p,
            p > 0,
    ;
    assert(r == q + 1) by (nonlinear_arith)
        requires
            n == r * p,
            q == i / p,
            n - p <= i < n,
            p > 0,
    ;
    assert(r * p == q * p + p) by (nonlinear_arith)
        requires
            r == q + 1,
    ;
}

/// The lowest set bit of a number is a power of two: it does not lie strictly
/// between two neighbouring powers.
pub proof fn lemma_low_bit_not_between(n: nat, d: nat)
    requires
        n > 0,
        pow2(d) < low_bit(n),
    ensures
        pow2(d + 1) <= low_bit(n),
    decreases d,
{
    lemma_pow2_double(d);
    if d == 0 {
        assert(pow2(0) == 1) by {
            lemma2_to64();
        }
    } else {
        lemma_pow2_double((d - 1) as nat);
        if n % 2 == 1 {
            lemma_pow2_pos(d);
        } else {
            lemma_low_bit_not_between(n / 2, (d - 1) as nat);
        }
    }
}

/// A multiple of `2^d` that is smaller than `2^k`, with `d <= k`, leaves room
/// for `2^d` more below `2^k`.
pub proof fn lemma_multiple_below(m: nat, d: nat, k: nat)
    requires
        d <= k,
        m % pow2(d) == 0,
        m < pow2(k),
    ensures
        m + pow2(d) <= pow2(k),
{
    lemma_pow2_pos(d);
    lemma_pow2_adds(d, (k - d) as nat);
    let p: int = pow2(d) as int;
    let r: int = pow2((k - d) as nat) as int;
    let whole: int = m as int;
    let q: int = whole / p;
    lemma_fundamental_div_mod(whole, p);
    assert(p * q + p <= p * r) by (nonlinear_arith)
        requires
            p * q < p * r,
            p > 0,
    ;
}

/// `2^degree` as a machine integer.
pub fn power_of_two(degree: usize) -> (p: usize)
    requires
        pow2(degree as nat) <= usize::MAX,
    ensures
        p == pow2(degree as nat),
{
    proof {
        lemma_exponent_fits(degree as nat);
        lemma_usize_shl_is_mul(1usize, degree);
    }
    1usize << degree
}

/// Reads the binary digit of weight `2^degree` of `index`.
pub fn has_bit(index: usize, degree: usize) -> (b: bool)
    requires
        pow2(degree as nat) <= usize::MAX,
    ensures
        b == bit_set(index as nat, degree as nat),
{
    proof {
        lemma_exponent_fits(degree as nat);
        lemma_usize_shr_is_div(index, degree);
    }
    let shifted: usize = index >> degree;
    assert(shifted & 1usize == shifted % 2usize) by (bit_vector);
    shifted & 1usize == 1usize
}

} // verus!
