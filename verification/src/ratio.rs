//! Fixed-point ratios: `numerator / denominator` as `mult / 2^shift`, so that
//! scaling a 64-bit value takes one multiplication and one shift.
use vstd::prelude::*;
use vstd::arithmetic::power2::{pow2, lemma_pow2_pos, lemma_pow2_unfold, lemma_pow2_strictly_increases, lemma2_to64};

verus! {

/// `numerator * 2^s / denominator`, rounded to the nearest integer (halves up).
pub open spec fn scaled(numerator: nat, denominator: nat, s: nat) -> nat {
    (((numerator * pow2(s) + denominator / 2) as int) / (denominator as int)) as nat
}

/// The largest shift from `s` down to zero at which the scaled value fits in
/// 32 bits; zero when none does.
pub open spec fn fitting_shift(numerator: nat, denominator: nat, s: nat) -> nat
    decreases s,
{
    if scaled(numerator, denominator, s) <= u32::MAX || s == 0 {
        s
    } else {
        fitting_shift(numerator, denominator, (s - 1) as nat)
    }
}

/// The multiplier and the shift that keep `numerator / denominator`: the
/// shift is the largest one up to 32 at which the rounded scaled numerator
/// fits in 32 bits, and an even multiplier is halved once, with the shift;
/// a zero numerator gives zero and zero.
pub open spec fn ratio_parts(numerator: nat, denominator: nat) -> (nat, nat) {
    if numerator == 0 {
        (0, 0)
    } else {
        let s = fitting_shift(numerator, denominator, 32);
        let m = scaled(numerator, denominator, s);
        if m % 2 == 0 && s > 0 {
            (m / 2, (s - 1) as nat)
        } else {
            (m, s)
        }
    }
}

/// The fitting shift from `t` down is at most `t`, fits unless it is zero,
/// and is `t` unless one more would not fit.
proof fn lemma_fitting_shift(n: nat, d: nat, t: nat)
    ensures
        fitting_shift(n, d, t) <= t,
        scaled(n, d, fitting_shift(n, d, t)) <= u32::MAX || fitting_shift(n, d, t) == 0,
        fitting_shift(n, d, t) < t ==> scaled(n, d, fitting_shift(n, d, t) + 1) > u32::MAX,
    decreases t,
{
    if !(scaled(n, d, t) <= u32::MAX || t == 0) {
        lemma_fitting_shift(n, d, (t - 1) as nat);
    }
}

/// When the rounded value at shift `s + 1` does not fit in 32 bits, the
/// rounded value at shift `s` is at least `2^31`.
proof fn lemma_scaled_half(n: nat, d: nat, s: nat)
    requires
        d > 0,
        scaled(n, d, s + 1) > u32::MAX,
    ensures
        scaled(n, d, s) >= 0x8000_0000,
{
    lemma_pow2_unfold(s + 1);
    let x = (n * pow2(s)) as int;
    let di = d as int;
    let h = di / 2;
    assert((n * pow2(s + 1)) as int == 2 * x) by (nonlinear_arith)
        requires pow2(s + 1) == 2 * pow2(s), x == (n * pow2(s)) as int;
    let y = 2 * x + h;
    vstd::arithmetic::div_mod::lemma_fundamental_div_mod(y, di);
    let q2 = y / di;
    assert(q2 >= 0x1_0000_0000);
    assert(y >= 0x1_0000_0000 * di) by (nonlinear_arith)
        requires y == di * q2 + y % di, y % di >= 0, q2 >= 0x1_0000_0000, di > 0;
    let z = x + h;
    assert(z >= 0x8000_0000 * di) by (nonlinear_arith)
        requires y >= 0x1_0000_0000 * di, y == 2 * x + h, z == x + h, h >= 0;
    vstd::arithmetic::div_mod::lemma_fundamental_div_mod(z, di);
    let q = z / di;
    assert(q >= 0x8000_0000) by (nonlinear_arith)
        requires z == di * q + z % di, z % di < di, z >= 0x8000_0000 * di, di > 0;
}

/// A ratio keeps as much precision as 32 bits allow: before an even
/// multiplier is halved, the shift is the largest one up to 32 at which the
/// rounded `numerator * 2^shift / denominator` fits in 32 bits. So the
/// multiplier is that rounded value at the shift, or half of it at the next
/// shift, and one shift more would not fit; and unless the shift is 31 or
/// 32 the multiplier is at least `2^30`, so that scaling errs by at most
/// `2^-31` of the value.
pub proof fn lemma_ratio_precision(r: Ratio)
    requires
        r.wf(),
        r.numerator_spec() != 0,
        r.denominator_spec() != 0,
    ensures
        ({
            let n = r.numerator_spec() as nat;
            let d = r.denominator_spec() as nat;
            let m = r.mult_spec() as nat;
            let s = r.shift_spec() as nat;
            &&& (m == scaled(n, d, s) && (s == 32 || scaled(n, d, s + 1) > u32::MAX))
                || (2 * m == scaled(n, d, s + 1) && (s + 1 == 32 || scaled(n, d, s + 2) > u32::MAX))
            &&& s >= 31 || m >= 0x4000_0000
        }),
{
    let n = r.numerator_spec() as nat;
    let d = r.denominator_spec() as nat;
    lemma_fitting_shift(n, d, 32);
    let s0 = fitting_shift(n, d, 32);
    let m0 = scaled(n, d, s0);
    if s0 < 32 {
        lemma_scaled_half(n, d, s0);
    }
    if m0 % 2 == 0 && s0 > 0 {
        assert((s0 - 1) as nat + 1 == s0);
        assert((s0 - 1) as nat + 2 == s0 + 1);
    }
}

/// Equal fractions are kept alike: `n*k / d*k` has the multiplier and the
/// shift of `n / d`, so the ratios made from them are equal.
pub proof fn lemma_ratio_parts_common_factor(n: nat, d: nat, k: nat)
    requires
        d > 0,
        k > 0,
    ensures
        ratio_parts(n * k, d * k) == ratio_parts(n, d),
{
    lemma_fitting_shift_common_factor(n, d, k, 32);
    let s = fitting_shift(n, d, 32);
    lemma_scaled_common_factor(n, d, k, s);
    assert(n * k == 0 <==> n == 0) by (nonlinear_arith)
        requires k > 0;
}

/// Scaling both terms of a fraction by `k` does not change its rounded
/// scaled value.
pub proof fn lemma_scaled_common_factor(n: nat, d: nat, k: nat, s: nat)
    requires
        d > 0,
        k > 0,
    ensures
        scaled(n * k, d * k, s) == scaled(n, d, s),
{
    let x = (n * pow2(s)) as int;
    let di = d as int;
    let ki = k as int;
    let dk = di * ki;
    assert(dk > 0) by (nonlinear_arith)
        requires di > 0, ki > 0, dk == di * ki;
    assert(((n * k) * pow2(s)) as int == x * ki) by (nonlinear_arith)
        requires x == (n * pow2(s)) as int, ki == k as int;
    vstd::arithmetic::div_mod::lemma_fundamental_div_mod(x, di);
    let q = x / di;
    let r = x % di;
    let h = di / 2;
    let hk = dk / 2;
    assert(x * ki == q * dk + r * ki) by (nonlinear_arith)
        requires x == di * q + r, dk == di * ki;
    assert(0 <= r * ki < dk) by (nonlinear_arith)
        requires 0 <= r < di, ki > 0, dk == di * ki;
    // whether the remainder, with half the divisor added, reaches the divisor
    // is the same for both fractions
    let up1 = r + h >= di;
    let up2 = r * ki + hk >= dk;
    assert(up1 == up2) by {
        if di % 2 == 0 {
            assert(hk == h * ki && dk == 2 * (h * ki)) by (nonlinear_arith)
                requires di == 2 * h, dk == di * ki, hk == dk / 2;
            assert((r + h >= di) == (r * ki >= h * ki)) by (nonlinear_arith)
                requires di == 2 * h, ki > 0;
        } else {
            assert(di == 2 * h + 1);
            let c = ki - ki / 2;
            assert(hk == h * ki + ki / 2 && dk == 2 * (h * ki) + ki) by (nonlinear_arith)
                requires di == 2 * h + 1, dk == di * ki, hk == dk / 2, ki > 0;
            assert(c >= 1);
            if r >= h + 1 {
                assert(r * ki >= h * ki + ki) by (nonlinear_arith)
                    requires r >= h + 1, ki > 0;
            } else {
                assert(r * ki <= h * ki) by (nonlinear_arith)
                    requires r <= h, ki > 0;
            }
        }
    }
    assert(hk < dk) by (nonlinear_arith)
        requires hk == dk / 2, dk > 0;
    assert(0 <= h < di);
    assert(x + h == q * di + (r + h) && q * di + (r + h) == (q + 1) * di + (r + h - di)) by (nonlinear_arith)
        requires x == di * q + r;
    if up1 {
        vstd::arithmetic::div_mod::lemma_fundamental_div_mod_converse(x + h, di, q + 1, r + h - di);
        assert(x * ki + hk == (q + 1) * dk + (r * ki + hk - dk)) by (nonlinear_arith)
            requires x * ki == q * dk + r * ki;
        vstd::arithmetic::div_mod::lemma_fundamental_div_mod_converse(x * ki + hk, dk, q + 1, r * ki + hk - dk);
    } else {
        vstd::arithmetic::div_mod::lemma_fundamental_div_mod_converse(x + h, di, q, r + h);
        vstd::arithmetic::div_mod::lemma_fundamental_div_mod_converse(x * ki + hk, dk, q, r * ki + hk);
    }
}

/// Scaling both terms by `k` leaves the fitting shift alone.
pub proof fn lemma_fitting_shift_common_factor(n: nat, d: nat, k: nat, s: nat)
    requires
        d > 0,
        k > 0,
    ensures
        fitting_shift(n * k, d * k, s) == fitting_shift(n, d, s),
    decreases s,
{
    lemma_scaled_common_factor(n, d, k, s);
    if s > 0 {
        lemma_fitting_shift_common_factor(n, d, k, (s - 1) as nat);
    }
}

/// A ratio of two 32-bit integers, kept as a 32-bit multiplier and a shift.
#[derive(Debug)]
pub struct Ratio {
    numerator: u32,
    denominator: u32,
    mult: u32,
    shift: u32,
}

impl Ratio {
    /// The multiplier.
    pub closed spec fn mult_spec(&self) -> u32 {
        self.mult
    }

    /// The shift.
    pub closed spec fn shift_spec(&self) -> u32 {
        self.shift
    }

    /// The numerator it was made from.
    pub closed spec fn numerator_spec(&self) -> u32 {
        self.numerator
    }

    /// The denominator it was made from.
    pub closed spec fn denominator_spec(&self) -> u32 {
        self.denominator
    }

    /// The multiplier and the shift are those of `numerator / denominator`.
    pub open spec fn wf(&self) -> bool {
        &&& self.shift_spec() <= 32
        &&& (self.mult_spec() as nat, self.shift_spec() as nat) == ratio_parts(
            self.numerator_spec() as nat,
            self.denominator_spec() as nat,
        )
    }

    /// The ratio `numerator / denominator`.
    ///
    /// The shift is the largest one up to 32 at which the rounded multiplier
    /// fits in 32 bits; an even multiplier is then halved once, with the shift.
    /// A zero numerator gives the zero ratio, whatever the denominator.
    pub fn new(numerator: u32, denominator: u32) -> (r: Self)
        requires
            numerator != 0 ==> denominator != 0,
        ensures
            r.wf(),
            r.numerator_spec() == numerator,
            r.denominator_spec() == denominator,
            r.shift_spec() <= 32,
            (r.mult_spec() as nat, r.shift_spec() as nat) == ratio_parts(numerator as nat, denominator as nat),
            numerator != 0 ==> -(denominator as int) <= 2 * (r.mult_spec() * denominator - numerator * pow2(
                r.shift_spec() as nat,
            )) <= denominator,
            numerator != 0 ==> r.shift_spec() >= 31 || r.mult_spec() >= 0x4000_0000,
            numerator != 0 ==> ({
                let m = r.mult_spec() as nat;
                let s = r.shift_spec() as nat;
                let n = numerator as nat;
                let d = denominator as nat;
                (m == scaled(n, d, s) && (s == 32 || scaled(n, d, s + 1) > u32::MAX))
                    || (2 * m == scaled(n, d, s + 1) && (s + 1 == 32 || scaled(n, d, s + 2) > u32::MAX))
            }),
    {
        if numerator == 0 {
            return Ratio { numerator, denominator, mult: 0, shift: 0 };
        }
        let ghost num = numerator as nat;
        let ghost den = denominator as nat;
        let mut shift: u32 = 32;
        let mut mult: u64 = Self::scaled_at(numerator, denominator, shift);
        while !(mult <= u32::MAX as u64 || shift == 0)
            invariant
                0 < shift <= 32 || (shift == 0 && mult <= u32::MAX) || mult <= u32::MAX,
                shift <= 32,
                denominator != 0,
                mult == scaled(num, den, shift as nat),
                num == numerator,
                den == denominator,
                fitting_shift(num, den, 32) == fitting_shift(num, den, shift as nat),
            decreases shift,
        {
            shift = shift - 1;
            mult = Self::scaled_at(numerator, denominator, shift);
        }
        proof {
            assert(fitting_shift(num, den, shift as nat) == shift);
            Self::lemma_rounding(num, den, shift as nat);
        }
        let ghost m0 = mult;
        let ghost s0 = shift;
        if mult % 2 == 0 && shift > 0 {
            mult = mult / 2;
            shift = shift - 1;
            proof {
                lemma_pow2_unfold(s0 as nat);
                let e = m0 * den - num * pow2(s0 as nat);
                assert(m0 * den == 2 * (mult * den)) by (nonlinear_arith)
                    requires m0 == 2 * mult;
                assert(num * pow2(s0 as nat) == 2 * (num * pow2(shift as nat))) by (nonlinear_arith)
                    requires pow2(s0 as nat) == 2 * pow2(shift as nat);
            }
        }
        let r = Ratio { numerator, denominator, mult: mult as u32, shift };
        proof {
            lemma_ratio_precision(r);
        }
        r
    }

    /// The rounded `numerator * 2^shift / denominator` as computed in 64 bits.
    fn scaled_at(numerator: u32, denominator: u32, shift: u32) -> (r: u64)
        requires
            denominator != 0,
            shift <= 32,
        ensures
            r == scaled(numerator as nat, denominator as nat, shift as nat),
            shift == 0 ==> r <= numerator,
    {
        proof {
            lemma2_to64();
            lemma_pow2_pos(shift as nat);
            if shift < 32 {
                lemma_pow2_strictly_increases(shift as nat, 32);
            }
            let p = pow2(shift as nat);
            assert((numerator as nat) * p <= 0xffff_ffff * 0x1_0000_0000) by (nonlinear_arith)
                requires numerator <= 0xffff_ffff, p <= 0x1_0000_0000;
            vstd::bits::lemma_u64_shl_is_mul(numerator as u64, shift as u64);
        }
        let r = (((numerator as u64) << (shift as u64)) + denominator as u64 / 2) / denominator as u64;
        proof {
            if shift == 0 {
                let n = numerator as int;
                let d = denominator as int;
                let q = r as int;
                vstd::arithmetic::div_mod::lemma_fundamental_div_mod(n + d / 2, d);
                assert(q <= n) by (nonlinear_arith)
                    requires d >= 1, n >= 0, q == (n + d / 2) / d, d * ((n + d / 2) / d) + (n + d / 2) % d == n + d / 2, (n + d / 2) % d >= 0, d / 2 < d;
            }
        }
        r
    }

    /// Rounding to the nearest integer leaves an error of at most half a unit.
    proof fn lemma_rounding(num: nat, den: nat, s: nat)
        requires
            den > 0,
        ensures
            -(den as int) <= 2 * (scaled(num, den, s) * den - num * pow2(s)) <= den,
    {
        let x = (num * pow2(s)) as int;
        let d = den as int;
        let h = d / 2;
        let q = (x + h) / d;
        vstd::arithmetic::div_mod::lemma_fundamental_div_mod(x + h, d);
        let r = (x + h) % d;
        assert(0 <= r < d);
        assert(q * d == x + h - r) by (nonlinear_arith)
            requires d * q + r == x + h;
        assert(scaled(num, den, s) == q);
    }

    /// `v * mult / 2^shift`, truncated to 64 bits.
    pub fn multiply(&self, v: u64) -> (r: u64)
        requires
            self.shift_spec() <= 32,
        ensures
            r == ((v * self.mult_spec()) / (pow2(self.shift_spec() as nat) as int)) as u64,
    {
        proof {
            let p = (v as int) * (self.mult as int);
            assert(p <= 0xffff_ffff_ffff_ffff * 0xffff_ffff) by (nonlinear_arith)
                requires p == (v as int) * (self.mult as int), v <= 0xffff_ffff_ffff_ffff, self.mult <= 0xffff_ffff;
            vstd::bits::lemma_u128_shr_is_div(((v as u128) * (self.mult as u128)) as u128, self.shift as u128);
        }
        let wide = ((v as u128) * (self.mult as u128)) >> (self.shift as u128);
        #[verifier::truncate]
        (wide as u64)
    }

}

impl PartialEq for Ratio {
    /// Two ratios are equal when they scale every value alike: same multiplier
    /// and same shift.
    fn eq(&self, other: &Ratio) -> (r: bool) {
        self.mult == other.mult && self.shift == other.shift
    }
}

impl vstd::std_specs::cmp::PartialEqSpecImpl for Ratio {
    open spec fn obeys_eq_spec() -> bool {
        true
    }

    open spec fn eq_spec(&self, other: &Ratio) -> bool {
        self.mult_spec() == other.mult_spec() && self.shift_spec() == other.shift_spec()
    }
}

} // verus!
