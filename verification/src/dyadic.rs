//! Arithmetic with powers of two: scaling, bit lengths and rounding of
//! quotients to the nearest integer.
use vstd::prelude::*;
use vstd::arithmetic::power2::*;
use vstd::arithmetic::div_mod::*;

verus! {

/// The quotient `x / q` rounded to the nearest integer; a quotient exactly
/// half way between two integers goes to the even one.
pub open spec fn round_half_even(x: nat, q: nat) -> nat {
    let floor = x / q;
    let rest = x % q;
    if 2 * rest < q || (2 * rest == q && floor % 2 == 0) {
        floor
    } else {
        floor + 1
    }
}

/// The least `e` with `x < limit * 2^e`: the number of low bits that `x` must
/// give up for its significand to stay below `limit`.
pub open spec fn excess_exponent(x: nat, limit: nat) -> nat
    decreases x,
{
    if limit == 0 || x < limit {
        0
    } else {
        1 + excess_exponent(x / 2, limit)
    }
}

/// A power of two splits into a lower power and the power of the rest.
pub proof fn lemma_pow2_split(low: nat, high: nat)
    requires
        low <= high,
    ensures
        pow2(high) == pow2(low) * pow2((high - low) as nat),
        pow2(low) > 0,
        pow2((high - low) as nat) > 0,
{
    lemma_pow2_adds(low, (high - low) as nat);
    lemma_pow2_pos(low);
    lemma_pow2_pos((high - low) as nat);
    assert(low + (high - low) as nat == high);
}

/// Powers of two grow with the exponent.
pub proof fn lemma_pow2_monotone(low: nat, high: nat)
    requires
        low <= high,
    ensures
        0 < pow2(low) <= pow2(high),
{
    lemma_pow2_pos(low);
    if low < high {
        lemma_pow2_strictly_increases(low, high);
    }
}

/// The next power of two is the double.
pub proof fn lemma_pow2_double(e: nat)
    ensures
        pow2(e + 1) == 2 * pow2(e),
        pow2(e) > 0,
{
    lemma_pow2_unfold(e + 1);
    lemma_pow2_pos(e);
}

/// Two powers of two that bound the machine integers used here.
pub proof fn lemma_pow2_large()
    ensures
        pow2(120) == 0x1_0000_0000_0000_0000_0000_0000_0000_00,
        pow2(128) == 0x1_0000_0000_0000_0000_0000_0000_0000_0000,
{
    lemma2_to64();
    lemma2_to64_rest();
    lemma_pow2_adds(60, 60);
    lemma_pow2_adds(64, 64);
}

/// Multiplying dividend and divisor by `c` keeps the quotient and multiplies
/// the remainder by `c`.
pub proof fn lemma_div_mod_scaled(x: nat, d: nat, c: nat)
    requires
        d > 0,
        c > 0,
    ensures
        d * c > 0,
        (x * c) / (d * c) == x / d,
        (x * c) % (d * c) == (x % d) * c,
{
    let q = (x / d) as int;
    let r = (x % d) as int;
    lemma_fundamental_div_mod(x as int, d as int);
    lemma_mod_bound(x as int, d as int);
    assert(d * c > 0) by (nonlinear_arith)
        requires
            d > 0,
            c > 0,
    ;
    assert(x * c == q * (d * c) + r * c) by (nonlinear_arith)
        requires
            x == d * q + r,
    ;
    assert(0 <= r * c < d * c) by (nonlinear_arith)
        requires
            0 <= r < d,
            c > 0,
    ;
    lemma_fundamental_div_mod_converse((x * c) as int, (d * c) as int, q, r * c);
}

/// Rounding a quotient does not depend on a common factor of dividend and
/// divisor.
pub proof fn lemma_round_half_even_scaled(x: nat, d: nat, c: nat)
    requires
        d > 0,
        c > 0,
    ensures
        round_half_even(x * c, d * c) == round_half_even(x, d),
{
    lemma_div_mod_scaled(x, d, c);
    let r = (x % d) as int;
    assert((2 * (r * c) < d * c) == (2 * r < d) && (2 * (r * c) == d * c) == (2 * r == d))
        by (nonlinear_arith)
        requires
            c > 0,
    ;
}

/// A quotient between two integers rounds to an integer between them.
pub proof fn lemma_round_half_even_bounds(x: nat, q: nat, low: nat, high: nat)
    requires
        q > 0,
        low * q <= x < high * q,
    ensures
        low <= round_half_even(x, q) <= high,
{
    let floor = (x / q) as int;
    let rest = (x % q) as int;
    lemma_fundamental_div_mod(x as int, q as int);
    lemma_mod_bound(x as int, q as int);
    assert(low <= floor < high) by (nonlinear_arith)
        requires
            x == q * floor + rest,
            0 <= rest < q,
            low * q <= x < high * q,
    {
        if floor < low {
            assert(q * (floor + 1) <= q * low);
        }
        if floor >= high {
            assert(q * floor >= q * high);
        }
    }
}

/// A multiple of the divisor is its own rounding.
pub proof fn lemma_round_half_even_multiple(k: nat, q: nat)
    requires
        q > 0,
    ensures
        round_half_even(k * q, q) == k,
{
    lemma_fundamental_div_mod_converse((k * q) as int, q as int, k as int, 0);
}

/// `x` in the window `[limit * 2^(e-1), limit * 2^e)` has excess exponent `e`.
pub proof fn lemma_excess_exponent_window(x: nat, limit: nat, e: nat)
    requires
        limit > 0,
        e >= 1,
        limit * pow2((e - 1) as nat) <= x < limit * pow2(e),
    ensures
        excess_exponent(x, limit) == e,
    decreases e,
{
    let a = limit * pow2((e - 1) as nat);
    lemma_pow2_double((e - 1) as nat);
    assert(pow2(e) == 2 * pow2((e - 1) as nat));
    assert(limit * pow2(e) == 2 * a) by (nonlinear_arith)
        requires
            pow2(e) == 2 * pow2((e - 1) as nat),
            a == limit * pow2((e - 1) as nat),
    ;
    assert(a >= limit) by (nonlinear_arith)
        requires
            a == limit * pow2((e - 1) as nat),
            pow2((e - 1) as nat) > 0,
            limit > 0,
    ;
    if e == 1 {
        lemma2_to64();
        assert(a == limit) by (nonlinear_arith)
            requires
                a == limit * pow2((e - 1) as nat),
                pow2((e - 1) as nat) == 1,
        ;
        assert(excess_exponent(x / 2, limit) == 0);
    } else {
        let b = limit * pow2((e - 2) as nat);
        lemma_pow2_double((e - 2) as nat);
        assert(pow2((e - 1) as nat) == 2 * pow2((e - 2) as nat));
        assert(a == 2 * b) by (nonlinear_arith)
            requires
                pow2((e - 1) as nat) == 2 * pow2((e - 2) as nat),
                a == limit * pow2((e - 1) as nat),
                b == limit * pow2((e - 2) as nat),
        ;
        lemma_excess_exponent_window(x / 2, limit, (e - 1) as nat);
    }
}

/// A number that is not below `limit` lies in the window of its excess
/// exponent.
pub proof fn lemma_excess_exponent_is_window(x: nat, limit: nat)
    requires
        0 < limit <= x,
    ensures
        excess_exponent(x, limit) >= 1,
        limit * pow2((excess_exponent(x, limit) - 1) as nat) <= x < limit * pow2(
            excess_exponent(x, limit),
        ),
    decreases x,
{
    let e = excess_exponent(x, limit);
    lemma2_to64();
    if x / 2 < limit {
        assert(e == 1);
        assert(limit * pow2(0) == limit && limit * pow2(1) == 2 * limit) by (nonlinear_arith)
            requires
                pow2(0) == 1,
                pow2(1) == 2,
        ;
    } else {
        lemma_excess_exponent_is_window(x / 2, limit);
        let inner = excess_exponent(x / 2, limit);
        assert(e == inner + 1);
        lemma_pow2_double((inner - 1) as nat);
        lemma_pow2_double(inner);
        assert(limit * pow2(inner) == 2 * (limit * pow2((inner - 1) as nat))
            && limit * pow2(inner + 1) == 2 * (limit * pow2(inner))) by (nonlinear_arith)
            requires
                pow2(inner) == 2 * pow2((inner - 1) as nat),
                pow2(inner + 1) == 2 * pow2(inner),
        ;
    }
}

/// `x < limit * 2^e` bounds the excess exponent of `x` by `e`.
pub proof fn lemma_excess_exponent_upper(x: nat, limit: nat, e: nat)
    requires
        limit > 0,
        x < limit * pow2(e),
    ensures
        excess_exponent(x, limit) <= e,
    decreases e,
{
    if x >= limit {
        if e == 0 {
            lemma2_to64();
            assert(limit * pow2(e) == limit) by (nonlinear_arith)
                requires
                    pow2(e) == 1,
            ;
        } else {
            lemma_pow2_double((e - 1) as nat);
            assert(pow2(e) == 2 * pow2((e - 1) as nat));
            assert(limit * pow2(e) == 2 * (limit * pow2((e - 1) as nat))) by (nonlinear_arith)
                requires
                    pow2(e) == 2 * pow2((e - 1) as nat),
            ;
            lemma_excess_exponent_upper(x / 2, limit, (e - 1) as nat);
        }
    }
}

/// `2^n` as a machine integer.
pub fn pow2_u128(n: u32) -> (r: u128)
    requires
        n <= 120,
    ensures
        r == pow2(n as nat),
        r > 0,
{
    let mut r: u128 = 1;
    let mut i: u32 = 0;
    proof {
        lemma2_to64();
    }
    while i < n
        invariant
            i <= n,
            n <= 120,
            r == pow2(i as nat),
        decreases n - i,
    {
        proof {
            lemma_pow2_double(i as nat);
            lemma_pow2_monotone((i + 1) as nat, 120);
            lemma_pow2_large();
        }
        r = r * 2;
        i = i + 1;
    }
    proof {
        lemma_pow2_pos(n as nat);
    }
    r
}

/// The number of bits needed to write `y`: zero for zero, else the `n` with
/// `2^(n-1) <= y < 2^n`.
pub fn bit_length(y: u128) -> (n: u32)
    ensures
        n <= 128,
        y < pow2(n as nat),
        n > 0 ==> pow2((n - 1) as nat) <= y,
        n == 0 <==> y == 0,
{
    let mut n: u32 = 0;
    let mut rest: u128 = y;
    proof {
        lemma2_to64();
    }
    while rest > 0
        invariant
            n <= 128,
            rest == (y as nat) / pow2(n as nat),
            rest > 0 ==> n < 128,
            n > 0 ==> pow2((n - 1) as nat) <= y,
            n == 0 ==> rest == y,
        decreases rest,
    {
        proof {
            let p = pow2(n as nat);
            lemma_pow2_double(n as nat);
            lemma_fundamental_div_mod(y as int, p as int);
            lemma_mod_bound(y as int, p as int);
            assert(p <= y) by (nonlinear_arith)
                requires
                    y == p * (y as int / p as int) + (y as int % p as int),
                    0 <= (y as int % p as int),
                    y as int / p as int >= 1,
                    p > 0,
            ;
            lemma_div_denominator(y as int, p as int, 2);
            assert(p * 2 == pow2((n + 1) as nat));
            if n + 1 == 128 {
                lemma_pow2_large();
                lemma_basic_div(y as int, pow2(128) as int);
            }
        }
        rest = rest / 2;
        n = n + 1;
    }
    proof {
        let p = pow2(n as nat);
        lemma_pow2_pos(n as nat);
        lemma_fundamental_div_mod(y as int, p as int);
        lemma_mod_bound(y as int, p as int);
        assert(p * 0 == 0);
        if n > 0 {
            lemma_pow2_pos((n - 1) as nat);
        }
    }
    n
}

/// `y / 2^shift` rounded to the nearest integer, ties to even.
pub fn round_half_even_pow2(y: u128, shift: u32) -> (r: u128)
    requires
        shift <= 120,
    ensures
        r == round_half_even(y as nat, pow2(shift as nat)),
{
    let q: u128 = pow2_u128(shift);
    let floor: u128 = y / q;
    let rest: u128 = y % q;
    proof {
        lemma_pow2_monotone(shift as nat, 120);
        lemma_pow2_large();
        lemma_fundamental_div_mod(y as int, q as int);
        lemma_mod_bound(y as int, q as int);
    }
    let twice: u128 = 2 * rest;
    if twice < q || (twice == q && floor % 2 == 0) {
        floor
    } else {
        proof {
            assert(q >= 2);
            assert(2 * floor <= y) by (nonlinear_arith)
                requires
                    y == q * floor + rest,
                    q >= 2,
                    rest >= 0,
                    floor >= 0,
            ;
        }
        floor + 1
    }
}

} // verus!
