//! Exact decimal numbers for scale ratings.
//!
//! A survey rating is a decimal literal such as `3.5`; it is held exactly as
//! a sign, a mantissa and a power-of-ten denominator, so that clamping and
//! averaging can be specified and proved over integers.

use vstd::prelude::*;

verus! {

use vstd::arithmetic::power::{
    pow,
    lemma_pow_positive,
    lemma_pow_increases,
    lemma_pow_adds,
};
use vstd::arithmetic::mul::{lemma_mul_inequality, lemma_mul_upper_bound};

/// Ten raised to `e`: the denominator of every decimal scale value.
pub open spec fn pow10(e: nat) -> int {
    pow(10, e)
}

pub proof fn lemma_pow10_pos(e: nat)
    ensures
        pow10(e) >= 1,
{
    lemma_pow_positive(10, e);
}

pub proof fn lemma_pow10_monotonic(e1: nat, e2: nat)
    requires
        e1 <= e2,
    ensures
        pow10(e1) <= pow10(e2),
{
    lemma_pow_increases(10, e1, e2);
}

pub proof fn lemma_pow10_adds(e1: nat, e2: nat)
    ensures
        pow10(e1) * pow10(e2) == pow10((e1 + e2) as nat),
{
    lemma_pow_adds(10, e1, e2);
}

pub proof fn lemma_pow10_values()
    ensures
        pow10(0) == 1,
        pow10(1) == 10,
        pow10(19) == 10_000_000_000_000_000_000,
        pow10(20) == 100_000_000_000_000_000_000,
        pow10(38) == 100_000_000_000_000_000_000_000_000_000_000_000_000,
{
    reveal_with_fuel(pow, 40);
}

/// One scale rating, held exactly: the value is
/// `(-1)^neg * mant / 10^exp`.
#[derive(Clone, Copy, PartialEq, Eq, Structural, Debug)]
pub struct Dec {
    pub neg: bool,
    pub mant: u64,
    pub exp: u64,
}

impl Dec {
    /// The signed numerator of the value over the denominator `10^exp`.
    pub open spec fn num(self) -> int {
        if self.neg {
            -(self.mant as int)
        } else {
            self.mant as int
        }
    }

    /// Canonical form: zero is `+0 / 10^0`, and a nonzero denominator is
    /// minimal, so each rational value has exactly one representation.
    pub open spec fn is_canon(self) -> bool {
        &&& (self.mant == 0 ==> !self.neg && self.exp == 0)
        &&& (self.exp > 0 ==> self.mant % 10 != 0)
    }

    /// The value is at least the integer `k`.
    pub open spec fn ge_int(self, k: int) -> bool {
        self.num() >= k * pow10(self.exp as nat)
    }

    /// The value is at most the integer `k`.
    pub open spec fn le_int(self, k: int) -> bool {
        self.num() <= k * pow10(self.exp as nat)
    }

    /// Decides whether the value is at least the small positive integer `k`.
    pub fn ge_int_exec(&self, k: u64) -> (r: bool)
        requires
            1 <= k <= 9,
        ensures
            r == self.ge_int(k as int),
    {
        proof {
            lemma_pow10_pos(self.exp as nat);
            lemma_mul_inequality(1, k as int, pow10(self.exp as nat));
        }
        if self.neg {
            // a non-positive value is below every positive bound
            false
        } else if self.exp >= 20 {
            // the denominator exceeds any u64 mantissa: the value is below 1
            proof {
                lemma_pow10_values();
                lemma_pow10_monotonic(20, self.exp as nat);
            }
            false
        } else {
            let p: u128 = pow10_u128(self.exp);
            proof {
                lemma_pow10_values();
                lemma_pow10_monotonic(self.exp as nat, 19);
                lemma_mul_upper_bound(k as int, 9, p as int, pow10(19));
            }
            (self.mant as u128) >= (k as u128) * p
        }
    }

    /// Decides whether the value is at most the small positive integer `k`.
    pub fn le_int_exec(&self, k: u64) -> (r: bool)
        requires
            1 <= k <= 9,
        ensures
            r == self.le_int(k as int),
    {
        proof {
            lemma_pow10_pos(self.exp as nat);
            lemma_mul_inequality(1, k as int, pow10(self.exp as nat));
        }
        if self.neg {
            true
        } else if self.exp >= 20 {
            proof {
                lemma_pow10_values();
                lemma_pow10_monotonic(20, self.exp as nat);
            }
            true
        } else {
            let p: u128 = pow10_u128(self.exp);
            proof {
                lemma_pow10_values();
                lemma_pow10_monotonic(self.exp as nat, 19);
                lemma_mul_upper_bound(k as int, 9, p as int, pow10(19));
            }
            (self.mant as u128) <= (k as u128) * p
        }
    }

    /// Pulls the value into the scale range `[1, 5]`: values below the
    /// bottom of the scale become `1`, values above the top become `5`,
    /// in-range values pass through unchanged.
    pub fn clamp_scale(self) -> (r: Dec)
        ensures
            r == clamp_spec(self),
    {
        if !self.ge_int_exec(1) {
            Dec { neg: false, mant: 1, exp: 0 }
        } else if !self.le_int_exec(5) {
            Dec { neg: false, mant: 5, exp: 0 }
        } else {
            self
        }
    }
}

/// The scale bottom, `1`.
pub open spec fn dec_one() -> Dec {
    Dec { neg: false, mant: 1, exp: 0 }
}

/// The scale top, `5`.
pub open spec fn dec_five() -> Dec {
    Dec { neg: false, mant: 5, exp: 0 }
}

/// What clamping to the scale range `[1, 5]` returns.
pub open spec fn clamp_spec(d: Dec) -> Dec {
    if !d.ge_int(1) {
        dec_one()
    } else if !d.le_int(5) {
        dec_five()
    } else {
        d
    }
}

/// The value lies in the inclusive scale range `[1, 5]`.
pub open spec fn in_scale_range(d: Dec) -> bool {
    d.ge_int(1) && d.le_int(5)
}

/// Law: every clamped value lies in the scale range `[1, 5]`.
pub proof fn lemma_clamp_in_range(d: Dec)
    ensures
        in_scale_range(clamp_spec(d)),
{
    lemma_pow10_values();
}

/// Law: clamping is idempotent — clamping an already clamped value
/// changes nothing.
pub proof fn lemma_clamp_idempotent(d: Dec)
    ensures
        clamp_spec(clamp_spec(d)) == clamp_spec(d),
{
    lemma_clamp_in_range(d);
}

proof fn lemma_canon_unique_pos(m1: int, e1: nat, m2: int, e2: nat)
    requires
        m1 > 0,
        m2 > 0,
        e1 > 0 ==> m1 % 10 != 0,
        e2 > 0 ==> m2 % 10 != 0,
        m1 * pow10(e2) == m2 * pow10(e1),
    ensures
        m1 == m2,
        e1 == e2,
    decreases e1 + e2,
{
    lemma_pow10_pos(e1);
    lemma_pow10_pos(e2);
    if e1 == 0 && e2 == 0 {
        lemma_pow10_values();
        assert(m1 == m2) by (nonlinear_arith)
            requires
                m1 * pow10(e2) == m2 * pow10(e1),
                pow10(e1) == 1,
                pow10(e2) == 1,
        ;
    } else if e1 > 0 && e2 > 0 {
        assert(pow10(e1) == 10 * pow10((e1 - 1) as nat) && pow10(e2) == 10 * pow10(
            (e2 - 1) as nat,
        )) by {
            reveal_with_fuel(pow, 2);
        }
        assert(m1 * pow10((e2 - 1) as nat) == m2 * pow10((e1 - 1) as nat)) by (nonlinear_arith)
            requires
                m1 * pow10(e2) == m2 * pow10(e1),
                pow10(e1) == 10 * pow10((e1 - 1) as nat),
                pow10(e2) == 10 * pow10((e2 - 1) as nat),
        ;
        lemma_canon_unique_pos(m1, (e1 - 1) as nat, m2, (e2 - 1) as nat);
    } else if e1 == 0 {
        // the value is the integer m1, yet m2 would keep a fraction digit
        assert(pow10(e2) == 10 * pow10((e2 - 1) as nat)) by {
            reveal_with_fuel(pow, 2);
        }
        lemma_pow10_values();
        assert(m2 == (m1 * pow10((e2 - 1) as nat)) * 10) by (nonlinear_arith)
            requires
                m1 * pow10(e2) == m2 * pow10(e1),
                pow10(e1) == 1,
                pow10(e2) == 10 * pow10((e2 - 1) as nat),
        ;
        assert(m2 % 10 == 0) by (nonlinear_arith)
            requires
                m2 == (m1 * pow10((e2 - 1) as nat)) * 10,
        ;
        assert(false);
    } else {
        assert(pow10(e1) == 10 * pow10((e1 - 1) as nat)) by {
            reveal_with_fuel(pow, 2);
        }
        lemma_pow10_values();
        assert(m1 == (m2 * pow10((e1 - 1) as nat)) * 10) by (nonlinear_arith)
            requires
                m1 * pow10(e2) == m2 * pow10(e1),
                pow10(e2) == 1,
                pow10(e1) == 10 * pow10((e1 - 1) as nat),
        ;
        assert(m1 % 10 == 0) by (nonlinear_arith)
            requires
                m1 == (m2 * pow10((e1 - 1) as nat)) * 10,
        ;
        assert(false);
    }
}

/// Law: a canonical decimal is determined by its value — two canonical
/// representations of the same rational are one and the same, so a parse
/// result pins the written value down to structural equality.
pub proof fn lemma_canon_unique(d1: Dec, d2: Dec)
    requires
        d1.is_canon(),
        d2.is_canon(),
        d1.num() * pow10(d2.exp as nat) == d2.num() * pow10(d1.exp as nat),
    ensures
        d1 == d2,
{
    lemma_pow10_pos(d1.exp as nat);
    lemma_pow10_pos(d2.exp as nat);
    if d1.mant == 0 || d2.mant == 0 {
        assert(d1.num() * pow10(d2.exp as nat) == 0 ==> d1.num() == 0) by (nonlinear_arith)
            requires
                pow10(d2.exp as nat) > 0,
        ;
        assert(d2.num() * pow10(d1.exp as nat) == 0 ==> d2.num() == 0) by (nonlinear_arith)
            requires
                pow10(d1.exp as nat) > 0,
        ;
        assert(d1.mant == 0 && d2.mant == 0);
    } else if d1.neg == d2.neg {
        if d1.neg {
            assert((d1.mant as int) * pow10(d2.exp as nat) == (d2.mant as int) * pow10(
                d1.exp as nat,
            )) by (nonlinear_arith)
                requires
                    (-(d1.mant as int)) * pow10(d2.exp as nat) == (-(d2.mant as int)) * pow10(
                        d1.exp as nat,
                    ),
            ;
        }
        lemma_canon_unique_pos(d1.mant as int, d1.exp as nat, d2.mant as int, d2.exp as nat);
    } else {
        // opposite signs cannot spell one value: the products disagree in sign
        assert(false) by (nonlinear_arith)
            requires
                d1.num() * pow10(d2.exp as nat) == d2.num() * pow10(d1.exp as nat),
                pow10(d1.exp as nat) > 0,
                pow10(d2.exp as nat) > 0,
                d1.num() != 0,
                d2.num() != 0,
                (d1.num() > 0) != (d2.num() > 0),
        ;
    }
}

/// The numerator of the value over the common denominator `10^19`, the
/// finest scale an in-range value can carry.
pub open spec fn scaled19(d: Dec) -> int {
    d.num() * pow10((19 - d.exp) as nat)
}

/// An in-range value is positive, carries at most nineteen fraction digits,
/// and its numerator at scale `10^19` lies between `10^19` and `5 * 10^19`.
pub proof fn lemma_in_range_scaled19(d: Dec)
    requires
        in_scale_range(d),
    ensures
        !d.neg,
        d.exp <= 19,
        pow10(19) <= scaled19(d) <= 5 * pow10(19),
{
    lemma_pow10_pos(d.exp as nat);
    lemma_pow10_values();
    assert(d.num() >= 1 * pow10(d.exp as nat));
    assert(!d.neg && d.mant >= pow10(d.exp as nat));
    if d.exp > 19 {
        lemma_pow10_monotonic(20, d.exp as nat);
        assert(d.mant >= pow10(20));
        assert(false);
    }
    let rest = (19 - d.exp) as nat;
    lemma_pow10_pos(rest);
    lemma_mul_inequality(pow10(d.exp as nat), d.num(), pow10(rest));
    lemma_mul_inequality(d.num(), 5 * pow10(d.exp as nat), pow10(rest));
    lemma_pow10_adds(d.exp as nat, rest);
    assert(pow10(d.exp as nat) * pow10(rest) == pow10(19));
    assert((5 * pow10(d.exp as nat)) * pow10(rest) == 5 * (pow10(d.exp as nat) * pow10(rest)))
        by {
        vstd::arithmetic::mul::lemma_mul_is_associative(5, pow10(d.exp as nat), pow10(rest));
    }
}

/// Computes `10^e` for exponents small enough to fit in a `u128`.
pub fn pow10_u128(e: u64) -> (r: u128)
    requires
        e <= 38,
    ensures
        r as int == pow10(e as nat),
{
    let mut r: u128 = 1;
    let mut i: u64 = 0;
    proof {
        lemma_pow10_values();
    }
    while i < e
        invariant
            i <= e <= 38,
            r as int == pow10(i as nat),
            pow10(38) == 100_000_000_000_000_000_000_000_000_000_000_000_000,
        decreases e - i,
    {
        proof {
            assert(pow10((i + 1) as nat) == 10 * pow10(i as nat)) by {
                reveal_with_fuel(pow, 2);
            }
            lemma_pow10_monotonic((i + 1) as nat, 38);
            lemma_pow10_pos(i as nat);
        }
        r = r * 10;
        i = i + 1;
    }
    r
}

} // verus!
