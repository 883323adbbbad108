//! Rounding of exact magnitudes to a format: to the nearest number that the
//! format holds, ties to the even significand, overflow to infinity.
use vstd::prelude::*;
use vstd::arithmetic::power2::*;
use vstd::arithmetic::div_mod::*;
use crate::dyadic::{
    bit_length,
    excess_exponent,
    lemma_excess_exponent_is_window,
    lemma_excess_exponent_upper,
    lemma_excess_exponent_window,
    lemma_pow2_double,
    lemma_pow2_large,
    lemma_pow2_monotone,
    lemma_pow2_split,
    lemma_round_half_even_bounds,
    lemma_round_half_even_multiple,
    lemma_round_half_even_scaled,
    pow2_u128,
    round_half_even,
    round_half_even_pow2,
};
use crate::precision::Precision;
use crate::value::Value;

verus! {

impl Precision {
    /// The least magnitude, in units, that is too large to be finite: twice
    /// the top binade's lower end.
    pub open spec fn overflow_threshold(self) -> nat {
        self.significand_limit() * pow2(self.max_scale())
    }

    /// The number of the format nearest to the magnitude `exact`, given in
    /// units. The magnitude keeps as many leading bits as a significand
    /// holds; the bits below are rounded off, a tie going to the even
    /// significand. A result at or above the overflow threshold is infinity.
    pub open spec fn round(self, exact: nat) -> Value {
        let quantum = pow2(excess_exponent(exact, self.significand_limit()));
        let rounded = round_half_even(exact, quantum) * quantum;
        if rounded >= self.overflow_threshold() {
            Value::Infinite { negative: false }
        } else {
            Value::Finite { negative: false, units: rounded }
        }
    }

    /// Joining a significand and a scale into magnitude bits gives the number
    /// `sig * 2^scale`. A significand that has rounded up to the limit carries
    /// into the exponent field, and out of the top binade into infinity.
    pub proof fn lemma_join(self, sig: nat, scale: nat)
        requires
            sig <= self.significand_limit(),
            scale <= self.max_scale(),
            scale > 0 ==> sig >= self.hidden(),
        ensures
            scale * self.hidden() + sig <= self.infinity_bits(),
            scale * self.hidden() + sig < self.infinity_bits() ==> self.units(
                scale * self.hidden() + sig,
            ) == sig * pow2(scale),
            scale * self.hidden() + sig == self.infinity_bits() <==> sig * pow2(scale)
                >= self.overflow_threshold(),
    {
        self.lemma_layout();
        let h = self.hidden() as int;
        let top = self.max_exponent() as int;
        let s = sig as int;
        let e = scale as int;
        let m = scale * self.hidden() + sig;
        let p = pow2(scale) as int;
        let pmax = pow2(self.max_scale()) as int;
        lemma_pow2_monotone(scale, self.max_scale());
        assert(m as int == e * h + s);
        assert(self.infinity_bits() as int == top * h);
        assert(self.overflow_threshold() as int == (2 * h) * pmax);
        assert(e * h + 2 * h <= top * h) by (nonlinear_arith)
            requires
                e + 2 <= top,
                h > 0,
        ;
        if s < h {
            lemma2_to64();
            assert(scale == 0);
            assert(p == 1);
            assert(e * h == 0);
            assert(s * p == s);
            assert((2 * h) * pmax >= 2 * h) by (nonlinear_arith)
                requires
                    pmax >= 1,
                    h > 0,
            ;
            assert(self.units(m) == m * pow2(0));
        } else if s < 2 * h {
            assert((e + 1) * h + (s - h) == e * h + s) by (nonlinear_arith);
            lemma_fundamental_div_mod_converse(m as int, h, e + 1, s - h);
            assert(self.significand(m) == s);
            assert(self.scale(m) == scale);
            assert(s * p < (2 * h) * pmax) by (nonlinear_arith)
                requires
                    0 <= s < 2 * h,
                    0 < p <= pmax,
            {
                assert(s * p < (2 * h) * p);
                assert((2 * h) * p <= (2 * h) * pmax);
            }
        } else {
            assert((e + 2) * h + 0 == e * h + s) by (nonlinear_arith)
                requires
                    s == 2 * h,
            ;
            lemma_fundamental_div_mod_converse(m as int, h, e + 2, 0);
            lemma_pow2_double(scale);
            if scale < self.max_scale() {
                lemma_pow2_strictly_increases(scale, self.max_scale());
                assert((e + 2) * h < top * h) by (nonlinear_arith)
                    requires
                        e + 2 < top,
                        h > 0,
                ;
                assert(self.significand(m) == h);
                assert(self.scale(m) == scale + 1);
                assert(h * (2 * p) == s * p) by (nonlinear_arith)
                    requires
                        s == 2 * h,
                ;
                assert(s * p < (2 * h) * pmax) by (nonlinear_arith)
                    requires
                        s == 2 * h,
                        0 < p < pmax,
                        h > 0,
                ;
            } else {
                assert((e + 2) * h == top * h);
                assert(s * p == (2 * h) * pmax);
            }
        }
    }

    /// A significand times a power of two rounds to itself, or to infinity
    /// where it is too large to be finite.
    pub proof fn lemma_round_multiple(self, sig: nat, scale: nat)
        requires
            sig < self.significand_limit(),
        ensures
            self.round(sig * pow2(scale)) == (if sig * pow2(scale) >= self.overflow_threshold() {
                Value::Infinite { negative: false }
            } else {
                Value::Finite { negative: false, units: sig * pow2(scale) }
            }),
    {
        self.lemma_layout();
        let limit = self.significand_limit();
        let x = sig * pow2(scale);
        lemma_pow2_pos(scale);
        assert(x < limit * pow2(scale)) by (nonlinear_arith)
            requires
                x == sig * pow2(scale),
                sig < limit,
                0 < pow2(scale),
        ;
        lemma_excess_exponent_upper(x, limit, scale);
        let ex = excess_exponent(x, limit);
        lemma_pow2_split(ex, scale);
        let k = sig * pow2((scale - ex) as nat);
        assert(x == k * pow2(ex)) by (nonlinear_arith)
            requires
                x == sig * pow2(scale),
                pow2(scale) == pow2(ex) * pow2((scale - ex) as nat),
                k == sig * pow2((scale - ex) as nat),
        ;
        lemma_round_half_even_multiple(k, pow2(ex));
    }

    /// A magnitude that fits a significand at a scale of the format rounds to
    /// itself.
    pub proof fn lemma_round_exact(self, sig: nat, scale: nat)
        requires
            sig < self.significand_limit(),
            scale <= self.max_scale(),
        ensures
            self.round(sig * pow2(scale)) == (Value::Finite {
                negative: false,
                units: sig * pow2(scale),
            }),
            sig * pow2(scale) < self.overflow_threshold(),
    {
        let limit = self.significand_limit();
        lemma_pow2_monotone(scale, self.max_scale());
        assert(sig * pow2(scale) < limit * pow2(self.max_scale())) by (nonlinear_arith)
            requires
                sig < limit,
                0 < pow2(scale) <= pow2(self.max_scale()),
        {
            assert(sig * pow2(scale) < limit * pow2(scale));
            assert(limit * pow2(scale) <= limit * pow2(self.max_scale()));
        }
        self.lemma_round_multiple(sig, scale);
    }

    /// Doubling a magnitude any number of times doubles what it rounds to, as
    /// long as the result stays finite.
    pub proof fn lemma_round_scales(self, x: nat, doublings: nat)
        requires
            self.round(x * pow2(doublings)) is Finite,
        ensures
            self.round(x) is Finite,
            self.round(x * pow2(doublings)).signed_units() == self.round(x).signed_units()
                * pow2(doublings),
    {
        self.lemma_layout();
        let limit = self.significand_limit();
        let c = pow2(doublings);
        lemma_pow2_pos(doublings);
        lemma_pow2_pos(self.max_scale());
        if x < limit {
            lemma2_to64();
            assert(x * pow2(0) == x);
            assert(limit * pow2(self.max_scale()) >= limit) by (nonlinear_arith)
                requires
                    pow2(self.max_scale()) >= 1,
            ;
            self.lemma_round_multiple(x, 0);
            self.lemma_round_multiple(x, doublings);
        } else {
            lemma_excess_exponent_is_window(x, limit);
            let e = excess_exponent(x, limit);
            let low = pow2((e - 1) as nat);
            let q = pow2(e);
            lemma_pow2_adds((e - 1) as nat, doublings);
            lemma_pow2_adds(e, doublings);
            assert((e - 1) as nat + doublings == (e + doublings - 1) as nat);
            assert(limit * pow2((e + doublings - 1) as nat) <= x * c < limit * pow2(e + doublings))
                by (nonlinear_arith)
                requires
                    c > 0,
                    limit * low <= x < limit * q,
                    pow2((e + doublings - 1) as nat) == low * c,
                    pow2(e + doublings) == q * c,
            {
                assert((limit * low) * c <= x * c);
                assert(x * c < (limit * q) * c);
                assert((limit * low) * c == limit * (low * c));
                assert((limit * q) * c == limit * (q * c));
            }
            lemma_excess_exponent_window(x * c, limit, e + doublings);
            lemma_pow2_pos(e);
            lemma_round_half_even_scaled(x, q, c);
            let r = round_half_even(x, q);
            assert(r * pow2(e + doublings) == (r * q) * c && r * q <= (r * q) * c)
                by (nonlinear_arith)
                requires
                    pow2(e + doublings) == q * c,
                    c >= 1,
                    q >= 1,
                    r >= 0,
            ;
        }
    }

    /// A magnitude `y * 2^scale` whose `y` has `shift` bits more than a
    /// significand holds rounds at the quantum `2^(shift + scale)`: its
    /// significand is `y / 2^shift` rounded to the nearest integer.
    pub proof fn lemma_round_inexact(self, y: nat, shift: nat, scale: nat)
        requires
            shift >= 1,
            self.significand_limit() * pow2((shift - 1) as nat) <= y < self.significand_limit()
                * pow2(shift),
        ensures
            self.hidden() <= round_half_even(y, pow2(shift)) <= self.significand_limit(),
            self.round(y * pow2(scale)) == (if round_half_even(y, pow2(shift)) * pow2(
                shift + scale,
            ) >= self.overflow_threshold() {
                Value::Infinite { negative: false }
            } else {
                Value::Finite {
                    negative: false,
                    units: round_half_even(y, pow2(shift)) * pow2(shift + scale),
                }
            }),
    {
        self.lemma_layout();
        let limit = self.significand_limit();
        let h = self.hidden();
        let x = y * pow2(scale);
        let lower = pow2((shift - 1) as nat);
        let q = pow2(shift);
        let c = pow2(scale);
        lemma_pow2_double((shift - 1) as nat);
        lemma_pow2_pos(scale);
        lemma_pow2_adds(shift, scale);
        lemma_pow2_adds((shift - 1) as nat, scale);
        assert((shift - 1) as nat + scale == (shift + scale - 1) as nat);
        assert(q == 2 * lower);
        assert(limit * pow2((shift + scale - 1) as nat) <= x < limit * pow2(shift + scale))
            by (nonlinear_arith)
            requires
                x == y * c,
                c > 0,
                limit * lower <= y < limit * q,
                pow2((shift + scale - 1) as nat) == lower * c,
                pow2(shift + scale) == q * c,
        {
            assert((limit * lower) * c <= y * c);
            assert(y * c < (limit * q) * c);
            assert((limit * lower) * c == limit * (lower * c));
            assert((limit * q) * c == limit * (q * c));
        }
        lemma_excess_exponent_window(x, limit, shift + scale);
        lemma_round_half_even_scaled(y, q, c);
        assert(h * q <= y) by (nonlinear_arith)
            requires
                limit * lower <= y,
                limit == 2 * h,
                q == 2 * lower,
        ;
        lemma_round_half_even_bounds(y, q, h, limit);
    }

    /// A number at least eight times smaller than the quantum of a normal
    /// number changes nothing when it is added to or subtracted from it.
    pub proof fn lemma_round_absorbs(self, sig: nat, scale: nat, small: nat)
        requires
            self.hidden() <= sig < self.significand_limit(),
            2 <= scale <= self.max_scale(),
            8 * small < pow2(scale),
        ensures
            self.round(sig * pow2(scale) + small) == (Value::Finite {
                negative: false,
                units: sig * pow2(scale),
            }),
            small <= sig * pow2(scale),
            self.round((sig * pow2(scale) - small) as nat) == (Value::Finite {
                negative: false,
                units: sig * pow2(scale),
            }),
    {
        self.lemma_layout();
        self.lemma_round_exact(sig, scale);
        let limit = self.significand_limit() as int;
        let h = self.hidden() as int;
        let s = sig as int;
        let v = small as int;
        let p = pow2(scale) as int;
        let half = pow2((scale - 1) as nat) as int;
        let quarter = pow2((scale - 2) as nat) as int;
        let u = (sig * pow2(scale)) as int;
        lemma_pow2_double((scale - 1) as nat);
        lemma_pow2_double((scale - 2) as nat);
        assert(p == 2 * half && half == 2 * quarter && quarter > 0);
        assert(u == s * p);
        assert(u >= h * p && h * p >= p) by (nonlinear_arith)
            requires
                u == s * p,
                s >= h,
                h >= 1,
                p > 0,
        ;
        assert(limit * half == h * p) by (nonlinear_arith)
            requires
                limit == 2 * h,
                p == 2 * half,
        ;
        assert(limit * quarter == h * half) by (nonlinear_arith)
            requires
                limit == 2 * h,
                half == 2 * quarter,
        ;
        assert((s + 1) * p <= limit * p && (s + 1) * p == u + p && (s - 1) * p == u - p)
            by (nonlinear_arith)
            requires
                u == s * p,
                s + 1 <= limit,
                p > 0,
        ;
        // the sum
        if v > 0 {
            let x = (sig * pow2(scale) + small) as nat;
            lemma_excess_exponent_window(x, limit as nat, scale);
            lemma_fundamental_div_mod_converse(x as int, p, s, v);
            assert(round_half_even(x, pow2(scale)) == sig);
        }
        // the difference
        if v > 0 {
            let x = (sig * pow2(scale) - small) as nat;
            if s > h {
                assert((s - 1) * p >= h * p) by (nonlinear_arith)
                    requires
                        s - 1 >= h,
                        p > 0,
                ;
                lemma_excess_exponent_window(x, limit as nat, scale);
                lemma_fundamental_div_mod_converse(x as int, p, s - 1, p - v);
                assert(round_half_even(x, pow2(scale)) == sig);
            } else {
                assert(u == limit * half);
                assert(h * half >= half) by (nonlinear_arith)
                    requires
                        h >= 1,
                        half > 0,
                ;
                assert((limit - 1) * half == u - half) by (nonlinear_arith)
                    requires
                        u == limit * half,
                ;
                lemma_excess_exponent_window(x, limit as nat, (scale - 1) as nat);
                lemma_fundamental_div_mod_converse(x as int, half, limit - 1, half - v);
                assert(round_half_even(x, pow2((scale - 1) as nat)) == limit);
            }
        }
    }

    /// Significand and scale of finite magnitude bits.
    pub fn split(self, m: u64) -> (r: (u64, u32))
        requires
            m < self.infinity_bits(),
        ensures
            r.0 == self.significand(m as nat),
            r.1 == self.scale(m as nat),
    {
        let h: u64 = self.hidden_weight();
        proof {
            self.lemma_layout();
            self.lemma_split(m as nat);
        }
        if m < h {
            (m, 0)
        } else {
            (h + m % h, (m / h - 1) as u32)
        }
    }

    /// Magnitude bits of `sig * 2^scale`; those of infinity where that
    /// overflows.
    pub fn join(self, sig: u64, scale: u32) -> (m: u64)
        requires
            sig <= self.significand_limit(),
            scale <= self.max_scale(),
            scale > 0 ==> sig >= self.hidden(),
        ensures
            m == scale * self.hidden() + sig,
            m <= self.infinity_bits(),
            self.magnitude_value(m as nat) == (if sig as nat * pow2(scale as nat)
                >= self.overflow_threshold() {
                Value::Infinite { negative: false }
            } else {
                Value::Finite { negative: false, units: sig as nat * pow2(scale as nat) }
            }),
    {
        let h: u64 = self.hidden_weight();
        proof {
            self.lemma_layout();
            self.lemma_join(sig as nat, scale as nat);
            assert(scale * h <= 2045 * 0x10_0000_0000_0000) by (nonlinear_arith)
                requires
                    0 <= scale <= 2045,
                    0 <= h <= 0x10_0000_0000_0000,
            ;
        }
        (scale as u64) * h + sig
    }

    /// Magnitude bits of the number of the format nearest to `y * 2^scale`.
    pub fn round_scaled(self, y: u128, scale: u32) -> (m: u64)
        requires
            y < pow2(112),
            scale <= self.max_scale(),
        ensures
            m <= self.infinity_bits(),
            self.magnitude_value(m as nat) == self.round(y as nat * pow2(scale as nat)),
    {
        if y == 0 {
            proof {
                self.lemma_layout();
                self.lemma_round_exact(0, 0);
                self.lemma_magnitude_order(0, 0);
                assert(0 * pow2(scale as nat) == 0 && 0 * pow2(0) == 0);
            }
            return 0;
        }
        let width: u32 = self.fraction_width() + 1;
        let n: u32 = bit_length(y);
        proof {
            self.lemma_layout();
            lemma_pow2_large();
            lemma_pow2_double(self.fraction_bits());
            assert(pow2(width as nat) == self.significand_limit());
            if n > 112 {
                lemma_pow2_monotone(112, (n - 1) as nat);
            }
        }
        if n <= width {
            let room: u32 = width - n;
            let lift: u32 = if room < scale {
                room
            } else {
                scale
            };
            let factor: u128 = pow2_u128(lift);
            proof {
                lemma_pow2_adds(n as nat, lift as nat);
                lemma_pow2_monotone((n + lift) as nat, width as nat);
                assert(y * factor < pow2(n as nat) * factor) by (nonlinear_arith)
                    requires
                        y < pow2(n as nat),
                        factor > 0,
                ;
                if lift == room {
                    let low = (n - 1) as nat;
                    lemma_pow2_adds(low, lift as nat);
                    assert(low + lift as nat == self.fraction_bits());
                    assert(pow2(low) * factor <= y * factor) by (nonlinear_arith)
                        requires
                            pow2(low) <= y,
                            factor > 0,
                    ;
                    assert(y * factor >= self.hidden());
                }
            }
            let sig: u128 = y * factor;
            let rest: u32 = scale - lift;
            proof {
                lemma_pow2_split(lift as nat, scale as nat);
                assert(sig * pow2(rest as nat) == y * pow2(scale as nat)) by (nonlinear_arith)
                    requires
                        sig == y * factor,
                        pow2(scale as nat) == factor * pow2(rest as nat),
                ;
                self.lemma_round_exact(sig as nat, rest as nat);
            }
            self.join(sig as u64, rest)
        } else {
            let shift: u32 = n - width;
            let sig: u128 = round_half_even_pow2(y, shift);
            proof {
                lemma_pow2_adds(width as nat, shift as nat);
                lemma_pow2_adds(width as nat, (shift - 1) as nat);
                self.lemma_round_inexact(y as nat, shift as nat, scale as nat);
            }
            let top: u64 = self.exponent_limit();
            if shift as u64 + scale as u64 > top - 2 {
                proof {
                    let e = (shift + scale) as nat;
                    lemma_pow2_monotone(self.max_scale() + 1, e);
                    lemma_pow2_double(self.max_scale());
                    assert(sig * pow2(e) >= self.overflow_threshold()) by (nonlinear_arith)
                        requires
                            sig >= self.hidden(),
                            pow2(e) >= 2 * pow2(self.max_scale()),
                            self.overflow_threshold() == (2 * self.hidden()) * pow2(
                                self.max_scale(),
                            ),
                    ;
                }
                self.infinity_pattern()
            } else {
                self.join(sig as u64, shift + scale)
            }
        }
    }
}

} // verus!
