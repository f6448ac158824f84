//! Exact decimal numbers: the value domain behind numeric literals with a
//! fractional part.
//!
//! A `Dec` denotes the rational number `m * 10^e`.  Values are kept in a
//! canonical form (the mantissa carries no trailing zero, zero itself is
//! `(0, 0)`), so structural equality coincides with value equality.  The
//! mantissa holds at most eighteen significant digits and the exponent is
//! bounded; results whose exact value fits that form are produced exactly,
//! and anything beyond it is truncated toward zero, which the contracts
//! leave unspecified.

use vstd::prelude::*;

verus! {

use vstd::math::abs;

use crate::strutil::{chars_to_string, digits_of, u64_digits};

/// Exclusive bound on the mantissa: ten to the eighteenth.
pub const MANT_LIMIT: i64 = 1_000_000_000_000_000_000;

/// Inclusive bound on the magnitude of the exponent.
pub const EXP_LIMIT: i32 = 1_000_000;

/// A decimal number `m * 10^e` in canonical form.
#[derive(Clone, Copy, Debug, PartialEq, Eq, Structural)]
pub struct Dec {
    pub m: i64,
    pub e: i32,
}

/// Ten to the `k`.
pub open spec fn pow10(k: nat) -> int
    decreases k,
{
    if k == 0 {
        1
    } else {
        10 * pow10((k - 1) as nat)
    }
}

impl Dec {
    /// Canonical form: bounded mantissa with no trailing zero, bounded
    /// exponent, and zero written as `(0, 0)`.
    pub open spec fn wf(self) -> bool {
        &&& -MANT_LIMIT < self.m < MANT_LIMIT
        &&& -EXP_LIMIT <= self.e <= EXP_LIMIT
        &&& (self.m == 0 || self.m as int % 10 != 0)
        &&& (self.m == 0 ==> self.e == 0)
    }

    /// The mantissa of `self`, rescaled to the exponent base `ebase`.
    /// At base `ebase`, `self` denotes `scaled(ebase) * 10^ebase`.
    pub open spec fn scaled(self, ebase: int) -> int
        recommends
            ebase <= self.e,
    {
        self.m * pow10((self.e - ebase) as nat)
    }
}

pub proof fn lemma_pow10_pos(k: nat)
    ensures
        pow10(k) >= 1,
    decreases k,
{
    if k > 0 {
        lemma_pow10_pos((k - 1) as nat);
    }
}

pub proof fn lemma_pow10_mono(a: nat, b: nat)
    requires
        a <= b,
    ensures
        pow10(a) <= pow10(b),
    decreases b,
{
    lemma_pow10_pos(a);
    if a < b {
        lemma_pow10_mono(a, (b - 1) as nat);
        lemma_pow10_pos((b - 1) as nat);
    }
}

pub proof fn lemma_pow10_add(a: nat, b: nat)
    ensures
        pow10(a + b) == pow10(a) * pow10(b),
    decreases a,
{
    if a == 0 {
    } else {
        lemma_pow10_add((a - 1) as nat, b);
        assert(pow10(a + b) == 10 * pow10((a + b - 1) as nat));
        assert((a + b - 1) as nat == (a - 1) as nat + b);
        assert(10 * (pow10((a - 1) as nat) * pow10(b)) == (10 * pow10((a - 1) as nat)) * pow10(b))
            by (nonlinear_arith);
    }
}

/// A product by a positive power of ten is divisible by ten.
pub proof fn lemma_mul_pow10_div10(a: int, k: nat)
    requires
        k >= 1,
    ensures
        (a * pow10(k)) % 10 == 0,
{
    lemma_pow10_add((k - 1) as nat, 1);
    assert(pow10(0) == 1);
    assert(pow10(1) == 10);
    assert(a * (pow10((k - 1) as nat) * 10) == (a * pow10((k - 1) as nat)) * 10)
        by (nonlinear_arith);
    assert((a * pow10((k - 1) as nat)) * 10 % 10 == 0) by (nonlinear_arith);
}

/// Scaling by a power of ten is injective.
pub proof fn lemma_pow10_cancel(a: int, b: int, k: nat)
    requires
        a * pow10(k) == b * pow10(k),
    ensures
        a == b,
{
    lemma_pow10_pos(k);
    assert(a == b) by (nonlinear_arith)
        requires
            a * pow10(k) == b * pow10(k),
            pow10(k) >= 1,
    ;
}

/// The magnitude and the value of an integer are divisible by ten together.
pub proof fn lemma_neg_mod10(a: int)
    ensures
        (a % 10 == 0) == ((-a) % 10 == 0),
{
    assert((a % 10 == 0) == ((-a) % 10 == 0)) by (nonlinear_arith);
}

/// The signed integer with magnitude `n`, negative when `neg` holds.
pub open spec fn signed_of(neg: bool, n: nat) -> int {
    if neg {
        -(n as int)
    } else {
        n as int
    }
}

/// Removes factors of ten from a magnitude, raising the exponent in step.
pub open spec fn strip_mag(n: nat, e: int) -> (nat, int)
    decreases n,
{
    if n != 0 && n % 10 == 0 {
        strip_mag(n / 10, e + 1)
    } else {
        (n, e)
    }
}

/// Truncates a magnitude toward zero until it has at most eighteen digits.
pub open spec fn shrink_mag(n: nat, e: int) -> (nat, int)
    decreases n,
{
    if n < MANT_LIMIT as nat {
        (n, e)
    } else {
        shrink_mag(n / 10, e + 1)
    }
}

/// The canonical decimal closest to `s * 10^e` from below in magnitude:
/// exact whenever that value has a canonical form, truncated toward zero
/// to eighteen significant digits otherwise, flushed to zero below the
/// exponent range and saturated above it.
pub open spec fn canon_spec(s: int, e: int) -> Dec {
    let neg = s < 0;
    let n = abs(s) as nat;
    let (n1, e1) = strip_mag(n, e);
    if n1 == 0 {
        Dec { m: 0, e: 0 }
    } else if n1 < MANT_LIMIT as nat && -EXP_LIMIT <= e1 <= EXP_LIMIT {
        Dec { m: signed_of(neg, n1) as i64, e: e1 as i32 }
    } else if e1 < -EXP_LIMIT {
        Dec { m: 0, e: 0 }
    } else {
        let (n2, e2) = shrink_mag(n1, e1);
        let (n3, e3) = strip_mag(n2, e2);
        if n3 == 0 {
            Dec { m: 0, e: 0 }
        } else if e3 > EXP_LIMIT {
            Dec { m: signed_of(neg, (MANT_LIMIT - 1) as nat) as i64, e: EXP_LIMIT }
        } else {
            Dec { m: signed_of(neg, n3) as i64, e: e3 as i32 }
        }
    }
}

/// What stripping trailing zeros preserves and guarantees.
pub proof fn lemma_strip_mag_props(n: nat, e: int)
    ensures
        strip_mag(n, e).1 >= e,
        strip_mag(n, e).0 * pow10((strip_mag(n, e).1 - e) as nat) == n,
        strip_mag(n, e).0 <= n,
        strip_mag(n, e).0 == 0 ==> n == 0,
        strip_mag(n, e).0 == 0 || strip_mag(n, e).0 % 10 != 0,
    decreases n,
{
    if n != 0 && n % 10 == 0 {
        lemma_strip_mag_props(n / 10, e + 1);
        let (n1, e1) = strip_mag(n / 10, e + 1);
        assert(n1 * pow10((e1 - e - 1) as nat) == n / 10);
        assert(n == (n / 10) * 10);
        lemma_pow10_add((e1 - e - 1) as nat, 1);
        assert(pow10(0) == 1);
        assert(pow10(1) == 10);
        assert(n1 * (pow10((e1 - e - 1) as nat) * 10) == (n1 * pow10((e1 - e - 1) as nat)) * 10)
            by (nonlinear_arith);
        assert((e1 - e - 1) as nat + 1 == (e1 - e) as nat);
    }
}

/// What truncating to eighteen digits guarantees.
pub proof fn lemma_shrink_mag_props(n: nat, e: int)
    ensures
        shrink_mag(n, e).1 >= e,
        shrink_mag(n, e).0 < MANT_LIMIT as nat,
        shrink_mag(n, e).0 <= n,
        n >= MANT_LIMIT as nat ==> shrink_mag(n, e).0 >= MANT_LIMIT as nat / 10,
    decreases n,
{
    if n >= MANT_LIMIT as nat {
        lemma_shrink_mag_props(n / 10, e + 1);
    }
}

/// Stripping a magnitude that is a canonical mantissa scaled by a power of
/// ten recovers that mantissa and its exponent.
pub proof fn lemma_strip_of_scaled(mm: nat, d: nat, e0: int)
    requires
        mm > 0,
        mm % 10 != 0,
    ensures
        strip_mag((mm * pow10(d)) as nat, e0) == (mm, e0 + d),
    decreases d,
{
    lemma_pow10_pos(d);
    if d == 0 {
        assert(pow10(0) == 1);
        assert(mm * 1 == mm) by (nonlinear_arith);
    } else {
        let n = mm * pow10(d);
        lemma_mul_pow10_div10(mm as int, d);
        assert(n >= 1) by (nonlinear_arith)
            requires
                mm >= 1,
                pow10(d) >= 1,
                n == mm * pow10(d),
        ;
        lemma_pow10_add((d - 1) as nat, 1);
        assert(pow10(0) == 1);
        assert(pow10(1) == 10);
        assert(mm * (pow10((d - 1) as nat) * 10) == (mm * pow10((d - 1) as nat)) * 10)
            by (nonlinear_arith);
        assert(n == (mm * pow10((d - 1) as nat)) * 10);
        assert(n / 10 == mm * pow10((d - 1) as nat)) by (nonlinear_arith)
            requires
                n == (mm * pow10((d - 1) as nat)) * 10,
        ;
        lemma_strip_of_scaled(mm, (d - 1) as nat, e0 + 1);
    }
}

/// Canonicalizing the exact value of a canonical decimal yields it back.
pub proof fn lemma_canon_exact(x: Dec, s: int, e0: int)
    requires
        x.wf(),
        e0 <= x.e,
        x.scaled(e0) == s,
    ensures
        canon_spec(s, e0) == x,
{
    let d = (x.e - e0) as nat;
    lemma_pow10_pos(d);
    if x.m == 0 {
        assert(s == 0) by (nonlinear_arith)
            requires
                s == x.m * pow10(d),
                x.m == 0,
        ;
        assert(strip_mag(0, e0) == (0nat, e0));
        assert(canon_spec(s, e0) == Dec { m: 0, e: 0 });
    } else {
        let mm = abs(x.m as int) as nat;
        assert(mm > 0);
        lemma_neg_mod10(x.m as int);
        assert(mm % 10 != 0);
        let neg = x.m < 0;
        assert(abs(s) == mm * pow10(d)) by (nonlinear_arith)
            requires
                s == x.m * pow10(d),
                pow10(d) >= 1,
                mm == abs(x.m as int),
        ;
        assert((s < 0) == neg) by (nonlinear_arith)
            requires
                s == x.m * pow10(d),
                pow10(d) >= 1,
                x.m != 0,
                neg == (x.m < 0),
        ;
        lemma_strip_of_scaled(mm, d, e0);
        assert(strip_mag(abs(s) as nat, e0) == (mm, e0 + d));
        assert(e0 + d == x.e);
        assert(mm < MANT_LIMIT as nat);
        assert(signed_of(neg, mm) == x.m as int);
    }
}

/// The concrete value of ten to the thirty-ninth.
pub proof fn lemma_pow10_39()
    ensures
        pow10(39) == 1_000_000_000_000_000_000_000_000_000_000_000_000_000int,
        pow10(39) > u128::MAX,
{
    reveal_with_fuel(pow10, 40);
}

/// Canonicalization always lands in canonical form.
pub proof fn lemma_canon_wf(s: int, e: int)
    ensures
        canon_spec(s, e).wf(),
{
    let neg = s < 0;
    let n = abs(s) as nat;
    lemma_strip_mag_props(n, e);
    let (n1, e1) = strip_mag(n, e);
    if n1 == 0 {
    } else if n1 < MANT_LIMIT as nat && -EXP_LIMIT <= e1 <= EXP_LIMIT {
        lemma_neg_mod10(n1 as int);
    } else if e1 < -EXP_LIMIT {
    } else {
        lemma_shrink_mag_props(n1, e1);
        let (n2, e2) = shrink_mag(n1, e1);
        lemma_strip_mag_props(n2, e2);
        let (n3, e3) = strip_mag(n2, e2);
        if n3 == 0 {
        } else if e3 > EXP_LIMIT {
            lemma_neg_mod10((MANT_LIMIT - 1) as int);
        } else {
            lemma_neg_mod10(n3 as int);
        }
    }
}

/// Builds the canonical decimal for the value with magnitude `n0`,
/// sign `neg` and exponent `e0`: exact whenever a canonical form exists.
pub(crate) fn canonicalize(neg: bool, n0: u128, e0: i64) -> (r: Dec)
    requires
        -3_000_000 <= e0 <= 3_000_000,
    ensures
        r == canon_spec(signed_of(neg, n0 as nat), e0 as int),
        r.wf(),
        forall|x: Dec|
            x.wf() && e0 as int <= x.e && #[trigger] x.scaled(e0 as int) == signed_of(
                neg,
                n0 as nat,
            ) ==> r == x,
{
    let ghost s_int = signed_of(neg, n0 as nat);
    proof {
        lemma_canon_wf(s_int, e0 as int);
        assert(abs(s_int) == n0 as nat);
        lemma_pow10_39();
    }
    let mut n = n0;
    let mut e = e0;
    proof {
        assert((e - e0) as nat == 0);
        assert(pow10(0) == 1);
        assert((n as nat) * pow10((e - e0) as nat) == n0 as nat) by (nonlinear_arith)
            requires
                pow10((e - e0) as nat) == 1,
                n == n0,
        ;
    }
    while n != 0 && n % 10 == 0
        invariant
            -3_000_000 <= e0 <= 3_000_000,
            strip_mag(n as nat, e as int) == strip_mag(n0 as nat, e0 as int),
            e >= e0,
            (n as nat) * pow10((e - e0) as nat) == n0 as nat,
            n <= n0,
            pow10(39) > n0 as nat,
        decreases n,
    {
        proof {
            assert(strip_mag(n as nat, e as int) == strip_mag((n / 10) as nat, e as int + 1));
            assert(((n / 10) as nat) * 10 == n as nat);
            lemma_pow10_add((e - e0) as nat, 1);
            assert(pow10(0) == 1);
            assert(pow10(1) == 10);
            assert(((n / 10) as nat) * (pow10((e - e0) as nat) * 10) == (((n / 10) as nat) * 10)
                * pow10((e - e0) as nat)) by (nonlinear_arith);
            assert(((n / 10) as nat) * pow10((e + 1 - e0) as nat) == n0 as nat);
            assert((n / 10) as nat >= 1);
            lemma_pow10_pos((e + 1 - e0) as nat);
            assert(pow10((e + 1 - e0) as nat) <= n0 as nat) by (nonlinear_arith)
                requires
                    ((n / 10) as nat) * pow10((e + 1 - e0) as nat) == n0 as nat,
                    (n / 10) as nat >= 1,
                    pow10((e + 1 - e0) as nat) >= 1,
            ;
            if e + 1 - e0 >= 39 {
                lemma_pow10_mono(39, (e + 1 - e0) as nat);
                assert(false);
            }
        }
        n = n / 10;
        e = e + 1;
    }
    proof {
        assert(strip_mag(n as nat, e as int) == (n as nat, e as int));
    }
    let ghost n1 = n as nat;
    let ghost e1 = e as int;
    if n == 0 {
        let r = Dec { m: 0, e: 0 };
        proof {
            assert(r == canon_spec(s_int, e0 as int));
            assert forall|x: Dec|
                x.wf() && e0 as int <= x.e && #[trigger] x.scaled(e0 as int)
                    == s_int implies r == x by {
                lemma_canon_exact(x, s_int, e0 as int);
            }
        }
        return r;
    }
    if n < MANT_LIMIT as u128 && -(EXP_LIMIT as i64) <= e && e <= EXP_LIMIT as i64 {
        let m64 = n as i64;
        let r = Dec { m: if neg { -m64 } else { m64 }, e: e as i32 };
        proof {
            assert(signed_of(neg, n1) == r.m as int);
            assert(r == canon_spec(s_int, e0 as int));
            assert forall|x: Dec|
                x.wf() && e0 as int <= x.e && #[trigger] x.scaled(e0 as int)
                    == s_int implies r == x by {
                lemma_canon_exact(x, s_int, e0 as int);
            }
        }
        return r;
    }
    if e < -(EXP_LIMIT as i64) {
        let r = Dec { m: 0, e: 0 };
        proof {
            assert(r == canon_spec(s_int, e0 as int));
            assert forall|x: Dec|
                x.wf() && e0 as int <= x.e && #[trigger] x.scaled(e0 as int)
                    == s_int implies r == x by {
                lemma_canon_exact(x, s_int, e0 as int);
            }
        }
        return r;
    }
    proof {
        lemma_pow10_pos((e - e0) as nat);
        assert(pow10((e - e0) as nat) <= n0 as nat) by (nonlinear_arith)
            requires
                (n as nat) * pow10((e - e0) as nat) == n0 as nat,
                n as nat >= 1,
                pow10((e - e0) as nat) >= 1,
        ;
        if e - e0 >= 39 {
            lemma_pow10_mono(39, (e - e0) as nat);
            assert(false);
        }
    }
    while n >= MANT_LIMIT as u128
        invariant
            shrink_mag(n as nat, e as int) == shrink_mag(n1, e1),
            n >= 1,
            e >= e1,
            e1 >= -(EXP_LIMIT as i64),
            e1 <= e0 + 39,
            -3_000_000 <= e0 <= 3_000_000,
            n <= n1,
            n1 <= n0,
            (n as nat) * pow10((e - e1) as nat) <= n1,
            pow10(39) > n0 as nat,
        decreases n,
    {
        proof {
            assert(shrink_mag(n as nat, e as int) == shrink_mag((n / 10) as nat, e as int + 1));
            assert(((n / 10) as nat) * 10 <= n as nat);
            lemma_pow10_add((e - e1) as nat, 1);
            assert(pow10(0) == 1);
            assert(pow10(1) == 10);
            lemma_pow10_pos((e - e1) as nat);
            assert(((n / 10) as nat) * (pow10((e - e1) as nat) * 10) == (((n / 10) as nat) * 10)
                * pow10((e - e1) as nat)) by (nonlinear_arith);
            assert((((n / 10) as nat) * 10) * pow10((e - e1) as nat) <= (n as nat) * pow10(
                (e - e1) as nat,
            )) by (nonlinear_arith)
                requires
                    ((n / 10) as nat) * 10 <= n as nat,
                    pow10((e - e1) as nat) >= 1,
            ;
            assert((n / 10) as nat >= 1);
            lemma_pow10_pos((e + 1 - e1) as nat);
            assert(pow10((e + 1 - e1) as nat) <= n1) by (nonlinear_arith)
                requires
                    ((n / 10) as nat) * pow10((e + 1 - e1) as nat) <= n1,
                    (n / 10) as nat >= 1,
                    pow10((e + 1 - e1) as nat) >= 1,
            ;
            if e + 1 - e1 >= 39 {
                lemma_pow10_mono(39, (e + 1 - e1) as nat);
                lemma_pow10_pos((e + 1 - e1) as nat);
                assert(false);
            }
        }
        n = n / 10;
        e = e + 1;
    }
    proof {
        assert(shrink_mag(n as nat, e as int) == (n as nat, e as int));
    }
    proof {
        lemma_pow10_pos((e - e1) as nat);
        assert(pow10((e - e1) as nat) <= n1) by (nonlinear_arith)
            requires
                (n as nat) * pow10((e - e1) as nat) <= n1,
                n as nat >= 1,
                pow10((e - e1) as nat) >= 1,
        ;
        if e - e1 >= 39 {
            lemma_pow10_mono(39, (e - e1) as nat);
            assert(false);
        }
    }
    let ghost n2 = n as nat;
    let ghost e2 = e as int;
    proof {
        assert((e as int - e2) as nat == 0);
        assert(pow10(0) == 1);
        assert((n as nat) * pow10((e as int - e2) as nat) == n2) by (nonlinear_arith)
            requires
                pow10((e as int - e2) as nat) == 1,
                n as nat == n2,
        ;
    }
    while n != 0 && n % 10 == 0
        invariant
            strip_mag(n as nat, e as int) == strip_mag(n2, e2),
            e >= e2,
            e2 <= e0 + 78,
            -3_000_000 <= e0 <= 3_000_000,
            n <= n2,
            n2 < MANT_LIMIT as nat,
            (n as nat) * pow10((e - e2) as nat) == n2,
            pow10(39) > n0 as nat,
        decreases n,
    {
        proof {
            assert(strip_mag(n as nat, e as int) == strip_mag((n / 10) as nat, e as int + 1));
            assert(((n / 10) as nat) * 10 == n as nat);
            lemma_pow10_add((e - e2) as nat, 1);
            assert(pow10(0) == 1);
            assert(pow10(1) == 10);
            assert(((n / 10) as nat) * (pow10((e - e2) as nat) * 10) == (((n / 10) as nat) * 10)
                * pow10((e - e2) as nat)) by (nonlinear_arith);
            assert(((n / 10) as nat) * pow10((e + 1 - e2) as nat) == n2);
            assert((n / 10) as nat >= 1);
            lemma_pow10_pos((e + 1 - e2) as nat);
            assert(pow10((e + 1 - e2) as nat) <= n2) by (nonlinear_arith)
                requires
                    ((n / 10) as nat) * pow10((e + 1 - e2) as nat) == n2,
                    (n / 10) as nat >= 1,
                    pow10((e + 1 - e2) as nat) >= 1,
            ;
            if e + 1 - e2 >= 39 {
                lemma_pow10_39();
                lemma_pow10_mono(39, (e + 1 - e2) as nat);
                lemma_pow10_pos((e + 1 - e2) as nat);
                assert(false);
            }
        }
        n = n / 10;
        e = e + 1;
    }
    proof {
        assert(strip_mag(n as nat, e as int) == (n as nat, e as int));
    }
    let r = if n == 0 {
        Dec { m: 0, e: 0 }
    } else if e > EXP_LIMIT as i64 {
        let sat = MANT_LIMIT - 1;
        Dec { m: if neg { -sat } else { sat }, e: EXP_LIMIT }
    } else {
        let m64 = n as i64;
        Dec { m: if neg { -m64 } else { m64 }, e: e as i32 }
    };
    proof {
        assert(r == canon_spec(s_int, e0 as int));
        assert forall|x: Dec|
            x.wf() && e0 as int <= x.e && #[trigger] x.scaled(e0 as int) == s_int implies r
            == x by {
            lemma_canon_exact(x, s_int, e0 as int);
        }
    }
    r
}

/// The concrete values of ten to the thirty-seventh and thirty-eighth.
pub proof fn lemma_pow10_37_38()
    ensures
        pow10(37) == 10_000_000_000_000_000_000_000_000_000_000_000_000int,
        pow10(38) == 100_000_000_000_000_000_000_000_000_000_000_000_000int,
{
    reveal_with_fuel(pow10, 40);
}

/// The concrete values of ten to the eighteenth and nineteenth.
pub proof fn lemma_pow10_18()
    ensures
        pow10(18) == MANT_LIMIT as int,
        pow10(19) == 10 * MANT_LIMIT as int,
        pow10(37) < i128::MAX,
{
    reveal_with_fuel(pow10, 40);
}

/// Ten to the `k`, computed.
pub(crate) fn pow10_i128(k: u32) -> (r: i128)
    requires
        k <= 37,
    ensures
        r == pow10(k as nat),
{
    proof {
        lemma_pow10_18();
    }
    let mut r: i128 = 1;
    let mut i: u32 = 0;
    while i < k
        invariant
            i <= k,
            k <= 37,
            r == pow10(i as nat),
            pow10(37) < i128::MAX,
        decreases k - i,
    {
        proof {
            lemma_pow10_pos(i as nat);
            lemma_pow10_mono((i + 1) as nat, 37);
            assert(pow10((i + 1) as nat) == 10 * pow10(i as nat));
        }
        r = r * 10;
        i = i + 1;
    }
    r
}

/// The smaller of the two exponents.
pub open spec fn min_e(a: Dec, b: Dec) -> int {
    if a.e <= b.e {
        a.e as int
    } else {
        b.e as int
    }
}

/// The exact value of `a + b`, expressed at the smaller exponent.
pub open spec fn sum_at_min(a: Dec, b: Dec) -> int {
    a.scaled(min_e(a, b)) + b.scaled(min_e(a, b))
}

/// The exact value of `a - b`, expressed at the smaller exponent.
pub open spec fn diff_at_min(a: Dec, b: Dec) -> int {
    a.scaled(min_e(a, b)) - b.scaled(min_e(a, b))
}

/// The negation of a canonical decimal.
pub open spec fn dec_neg_spec(a: Dec) -> Dec {
    Dec { m: (-(a.m as int)) as i64, e: a.e }
}

/// What the sum of two canonical decimals is: exact whenever the exact sum
/// has a canonical form; when the exponents lie more than eighteen apart
/// the smaller addend is truncated away entirely.
pub open spec fn dec_add_spec(a: Dec, b: Dec) -> Dec {
    if a.m == 0 {
        b
    } else if b.m == 0 {
        a
    } else {
        let hi = if a.e >= b.e {
            a
        } else {
            b
        };
        let lo = if a.e >= b.e {
            b
        } else {
            a
        };
        if hi.e - lo.e > 18 {
            hi
        } else {
            canon_spec(sum_at_min(a, b), min_e(a, b))
        }
    }
}

/// What the product of two canonical decimals is.
pub open spec fn dec_mul_spec(a: Dec, b: Dec) -> Dec {
    canon_spec(a.m * b.m, a.e + b.e)
}

/// What the quotient of two canonical decimals is: the exact quotient
/// whenever it is a canonical decimal with at most nineteen digits below
/// the naturally aligned exponent, truncated toward zero otherwise.
pub open spec fn dec_div_spec(a: Dec, b: Dec) -> Dec {
    let neg = (a.m < 0) != (b.m < 0);
    let mag = (abs(a.m as int) * pow10(19)) as nat / (abs(b.m as int) as nat);
    canon_spec(signed_of(neg, mag), a.e - b.e - 19)
}

/// Splits a value into sign and magnitude.
fn split_sign(s: i128) -> (r: (bool, u128))
    requires
        s > i128::MIN,
    ensures
        signed_of(r.0, r.1 as nat) == s as int,
        r.1 as nat == abs(s as int),
        r.0 == (s < 0),
{
    if s < 0 {
        (true, (-s) as u128)
    } else {
        (false, s as u128)
    }
}

impl Dec {
    /// The canonical decimal with value `m * 10^e`.
    pub fn new(m: i64, e: i32) -> (r: Dec)
        requires
            -EXP_LIMIT <= e <= EXP_LIMIT,
        ensures
            r.wf(),
            r == canon_spec(m as int, e as int),
            forall|x: Dec|
                x.wf() && e as int <= x.e && #[trigger] x.scaled(e as int) == m as int ==> r == x,
    {
        let neg = m < 0;
        let mag: u128 = if m < 0 {
            (-(m as i128)) as u128
        } else {
            m as u128
        };
        canonicalize(neg, mag, e as i64)
    }

    /// The canonical decimal for an integer.
    pub fn from_i64(m: i64) -> (r: Dec)
        ensures
            r.wf(),
            r == canon_spec(m as int, 0),
            forall|x: Dec| x.wf() && 0 <= x.e && #[trigger] x.scaled(0) == m as int ==> r == x,
    {
        let neg = m < 0;
        let mag: u128 = if m < 0 {
            (-(m as i128)) as u128
        } else {
            m as u128
        };
        canonicalize(neg, mag, 0)
    }

    /// Negation; exact.
    pub fn neg(&self) -> (r: Dec)
        requires
            self.wf(),
        ensures
            r.wf(),
            r == dec_neg_spec(*self),
            r.m as int == -(self.m as int),
            r.e == self.e,
    {
        proof {
            lemma_neg_mod10(self.m as int);
        }
        Dec { m: -self.m, e: self.e }
    }

    /// Addition: exact whenever the exact sum has a canonical form.
    pub fn add_dec(&self, other: &Dec) -> (r: Dec)
        requires
            self.wf(),
            other.wf(),
        ensures
            r.wf(),
            r == dec_add_spec(*self, *other),
            forall|x: Dec|
                x.wf() && min_e(*self, *other) <= x.e && #[trigger] x.scaled(min_e(*self, *other))
                    == sum_at_min(*self, *other) ==> r == x,
    {
        let a = *self;
        let b = *other;
        let ghost emin = min_e(a, b);
        if a.m == 0 {
            proof {
                lemma_zero_scaled(a, emin);
                assert forall|x: Dec|
                    x.wf() && emin <= x.e && #[trigger] x.scaled(emin) == sum_at_min(a, b) implies b
                    == x by {
                    lemma_canonical_unique(x, b, emin);
                }
            }
            return b;
        }
        if b.m == 0 {
            proof {
                lemma_zero_scaled(b, emin);
                assert forall|x: Dec|
                    x.wf() && emin <= x.e && #[trigger] x.scaled(emin) == sum_at_min(a, b) implies a
                    == x by {
                    lemma_canonical_unique(x, a, emin);
                }
            }
            return a;
        }
        let (hi, lo) = if a.e >= b.e {
            (a, b)
        } else {
            (b, a)
        };
        let d: i64 = hi.e as i64 - lo.e as i64;
        proof {
            assert(emin == lo.e as int);
            assert(pow10(0) == 1);
            assert(lo.scaled(emin) == lo.m) by (nonlinear_arith)
                requires
                    lo.scaled(emin) == lo.m * pow10((lo.e - emin) as nat),
                    pow10((lo.e - emin) as nat) == 1,
            ;
            assert(hi.scaled(emin) == hi.m * pow10(d as nat));
            assert(sum_at_min(a, b) == hi.m * pow10(d as nat) + lo.m);
        }
        if d > 18 {
            proof {
                lemma_add_far_apart(hi, lo);
            }
            return hi;
        }
        proof {
            lemma_pow10_18();
            lemma_pow10_pos(d as nat);
            lemma_pow10_mono(d as nat, 18);
            assert(hi.m * pow10(d as nat) <= abs(hi.m as int) * pow10(d as nat) <= abs(
                hi.m as int,
            ) * pow10(18)) by (nonlinear_arith)
                requires
                    pow10(d as nat) >= 1,
                    pow10(d as nat) <= pow10(18),
                    pow10(18) >= 1,
            ;
            assert(-(abs(hi.m as int) * pow10(18)) <= hi.m * pow10(d as nat)) by (nonlinear_arith)
                requires
                    pow10(d as nat) >= 1,
                    pow10(d as nat) <= pow10(18),
                    pow10(18) >= 1,
            ;
            assert(abs(hi.m as int) * pow10(18) < MANT_LIMIT as int * pow10(18))
                by (nonlinear_arith)
                requires
                    abs(hi.m as int) < MANT_LIMIT as int,
                    pow10(18) >= 1,
            ;
            assert((MANT_LIMIT as int) * pow10(18) == 1000000000000000000000000000000000000int);
        }
        let scale = pow10_i128(d as u32);
        let s: i128 = (hi.m as i128) * scale + (lo.m as i128);
        let (neg, mag) = split_sign(s);
        let r = canonicalize(neg, mag, lo.e as i64);
        proof {
            assert(s as int == sum_at_min(a, b));
        }
        r
    }

    /// Subtraction: exact whenever the exact difference has a canonical form.
    pub fn sub_dec(&self, other: &Dec) -> (r: Dec)
        requires
            self.wf(),
            other.wf(),
        ensures
            r.wf(),
            r == dec_add_spec(*self, dec_neg_spec(*other)),
            forall|x: Dec|
                x.wf() && min_e(*self, *other) <= x.e && #[trigger] x.scaled(min_e(*self, *other))
                    == diff_at_min(*self, *other) ==> r == x,
    {
        let nb = other.neg();
        let r = self.add_dec(&nb);
        proof {
            assert(min_e(*self, nb) == min_e(*self, *other));
            assert(nb.scaled(min_e(*self, nb)) == -(other.scaled(min_e(*self, *other))))
                by (nonlinear_arith)
                requires
                    nb.m as int == -(other.m as int),
                    nb.e == other.e,
                    nb.scaled(min_e(*self, nb)) == nb.m * pow10((nb.e - min_e(*self, nb)) as nat),
                    other.scaled(min_e(*self, *other)) == other.m * pow10(
                        (other.e - min_e(*self, *other)) as nat,
                    ),
                    min_e(*self, nb) == min_e(*self, *other),
            ;
            assert(sum_at_min(*self, nb) == diff_at_min(*self, *other));
        }
        r
    }

    /// Multiplication: exact whenever the exact product has a canonical form.
    pub fn mul_dec(&self, other: &Dec) -> (r: Dec)
        requires
            self.wf(),
            other.wf(),
        ensures
            r.wf(),
            r == dec_mul_spec(*self, *other),
            forall|x: Dec|
                x.wf() && self.e + other.e <= x.e && #[trigger] x.scaled(self.e + other.e)
                    == self.m * other.m ==> r == x,
    {
        proof {
            lemma_pow10_18();
            assert(((self.m as i128) * (other.m as i128)) < 1000000000000000000000000000000000000i128
                && ((self.m as i128) * (other.m as i128))
                > -1000000000000000000000000000000000000i128) by (nonlinear_arith)
                requires
                    (self.m as i128) < 1000000000000000000i128,
                    (self.m as i128) > -1000000000000000000i128,
                    (other.m as i128) < 1000000000000000000i128,
                    (other.m as i128) > -1000000000000000000i128,
            ;
        }
        let s: i128 = (self.m as i128) * (other.m as i128);
        let (neg, mag) = split_sign(s);
        let e0: i64 = self.e as i64 + other.e as i64;
        let r = canonicalize(neg, mag, e0);
        r
    }

    /// Division by a nonzero decimal: carries nineteen digits below the
    /// aligned exponent and truncates the rest toward zero; exact whenever
    /// the exact quotient is canonical within that range.
    pub fn div_dec(&self, other: &Dec) -> (r: Dec)
        requires
            self.wf(),
            other.wf(),
            other.m != 0,
        ensures
            r.wf(),
            r == dec_div_spec(*self, *other),
            forall|x: Dec|
                x.wf() && self.e - other.e - 19 <= x.e && #[trigger] x.scaled(
                    self.e - other.e - 19,
                ) * other.m == self.m * pow10(19) ==> r == x,
    {
        proof {
            lemma_pow10_18();
        }
        let neg: bool = (self.m < 0) != (other.m < 0);
        let amag: u128 = if self.m < 0 {
            (-(self.m as i128)) as u128
        } else {
            self.m as u128
        };
        let bmag: u128 = if other.m < 0 {
            (-(other.m as i128)) as u128
        } else {
            other.m as u128
        };
        let scale: u128 = pow10_i128(19) as u128;
        proof {
            assert((amag as nat) * (scale as nat) < (MANT_LIMIT as nat) * pow10(19))
                by (nonlinear_arith)
                requires
                    (amag as nat) < (MANT_LIMIT as nat),
                    scale as nat == pow10(19),
                    pow10(19) >= 1,
            ;
            assert((MANT_LIMIT as int) * pow10(19) == pow10(18) * pow10(19));
            lemma_pow10_add(18, 19);
            lemma_pow10_mono(37, 37);
            assert(pow10(18) * pow10(19) == pow10(37));
        }
        let num: u128 = amag * scale;
        let mag = num / bmag;
        let e0: i64 = self.e as i64 - other.e as i64 - 19;
        let r = canonicalize(neg, mag, e0);
        proof {
            lemma_div_exact_unique(*self, *other, neg, amag as nat, bmag as nat, mag as nat, e0 as int);
        }
        r
    }
}

/// A zero mantissa makes the scaled value zero.
pub proof fn lemma_zero_scaled(a: Dec, ebase: int)
    requires
        a.m == 0,
    ensures
        a.scaled(ebase) == 0,
{
    assert(a.m * pow10((a.e - ebase) as nat) == 0) by (nonlinear_arith)
        requires
            a.m == 0,
    ;
}

/// When the exponents of two nonzero canonical addends lie more than
/// eighteen apart, the exact sum has no canonical form at all.
proof fn lemma_add_far_apart(hi: Dec, lo: Dec)
    requires
        hi.wf(),
        lo.wf(),
        hi.m != 0,
        lo.m != 0,
        hi.e as int - lo.e as int > 18,
    ensures
        forall|x: Dec|
            !(x.wf() && lo.e as int <= x.e && #[trigger] x.scaled(lo.e as int) == hi.m * pow10(
                (hi.e - lo.e) as nat,
            ) + lo.m),
{
    let d = (hi.e - lo.e) as nat;
    let s = hi.m * pow10(d) + lo.m;
    lemma_pow10_18();
    lemma_pow10_add((d - 1) as nat, 1);
    assert(pow10(0) == 1);
    assert(pow10(1) == 10);
    assert(hi.m * pow10(d) == 10 * (hi.m * pow10((d - 1) as nat))) by (nonlinear_arith)
        requires
            pow10(d) == pow10((d - 1) as nat) * 10,
    ;
    vstd::arithmetic::div_mod::lemma_mod_multiples_vanish(hi.m * pow10((d - 1) as nat), lo.m as int, 10);
    assert(s % 10 == lo.m % 10);
    assert(lo.m as int % 10 != 0);
    lemma_pow10_mono(19, d);
    assert(abs(hi.m as int) >= 1);
    assert(abs(hi.m * pow10(d)) >= pow10(d)) by (nonlinear_arith)
        requires
            abs(hi.m as int) >= 1,
            pow10(d) >= 1,
    {
        lemma_pow10_pos(d);
    }
    assert(abs(s as int) >= pow10(d) - abs(lo.m as int));
    assert(abs(s as int) > MANT_LIMIT as int);
    assert forall|x: Dec|
        !(x.wf() && lo.e as int <= x.e && #[trigger] x.scaled(lo.e as int) == s) by {
        if x.wf() && lo.e as int <= x.e && x.scaled(lo.e as int) == s {
            if x.e > lo.e {
                lemma_mul_pow10_div10(x.m as int, (x.e - lo.e) as nat);
                assert(x.scaled(lo.e as int) % 10 == 0);
                assert(false);
            } else {
                assert(x.e == lo.e);
                assert(pow10(0) == 1);
                assert(x.scaled(lo.e as int) == x.m) by (nonlinear_arith)
                    requires
                        x.scaled(lo.e as int) == x.m * pow10((x.e - lo.e) as nat),
                        pow10((x.e - lo.e) as nat) == 1,
                ;
                assert(abs(x.m as int) > MANT_LIMIT as int);
                assert(false);
            }
        }
    }
}

/// Exactness of truncating division: a canonical decimal that solves the
/// quotient equation exactly is what division returns.
proof fn lemma_div_exact_unique(a: Dec, b: Dec, neg: bool, amag: nat, bmag: nat, mag: nat, e0: int)
    requires
        a.wf(),
        b.wf(),
        b.m != 0,
        neg == ((a.m < 0) != (b.m < 0)),
        amag == abs(a.m as int),
        bmag == abs(b.m as int),
        mag == (amag * pow10(19)) as nat / bmag,
        e0 == a.e - b.e - 19,
    ensures
        forall|x: Dec|
            x.wf() && e0 <= x.e && #[trigger] x.scaled(e0) * b.m == a.m * pow10(19) ==> x
                == canon_spec(signed_of(neg, mag), e0),
{
    assert forall|x: Dec|
        x.wf() && e0 <= x.e && #[trigger] x.scaled(e0) * b.m == a.m * pow10(19) implies x
        == canon_spec(signed_of(neg, mag), e0) by {
        let q = x.scaled(e0);
        lemma_pow10_pos(19);
        lemma_pow10_pos((x.e - e0) as nat);
        assert(abs(q) * bmag == amag * pow10(19)) by (nonlinear_arith)
            requires
                q * b.m == a.m * pow10(19),
                amag == abs(a.m as int),
                bmag == abs(b.m as int),
                pow10(19) >= 1,
                b.m != 0,
        ;
        vstd::arithmetic::div_mod::lemma_fundamental_div_mod_converse(
            (amag * pow10(19)) as int,
            bmag as int,
            abs(q) as int,
            0,
        );
        assert(mag == abs(q));
        assert((q < 0) ==> neg) by (nonlinear_arith)
            requires
                q * b.m == a.m * pow10(19),
                pow10(19) >= 1,
                neg == ((a.m < 0) != (b.m < 0)),
                b.m != 0,
        ;
        assert((q > 0) ==> !neg) by (nonlinear_arith)
            requires
                q * b.m == a.m * pow10(19),
                pow10(19) >= 1,
                neg == ((a.m < 0) != (b.m < 0)),
                b.m != 0,
        ;
        assert(signed_of(neg, mag) == q);
        lemma_canon_exact(x, q, e0);
    }
}

/// Canonicalizing a nonzero value at a representable exponent never
/// yields zero.
pub proof fn lemma_canon_nonzero(s: int, e: int)
    requires
        s != 0,
        e >= -EXP_LIMIT,
    ensures
        canon_spec(s, e).m != 0,
{
    let n = abs(s) as nat;
    lemma_strip_mag_props(n, e);
    let (n1, e1) = strip_mag(n, e);
    if n1 == 0 {
    } else if n1 < MANT_LIMIT as nat && -EXP_LIMIT <= e1 <= EXP_LIMIT {
    } else if e1 < -EXP_LIMIT {
        assert(false);
    } else {
        lemma_shrink_mag_props(n1, e1);
        let (n2, e2) = shrink_mag(n1, e1);
        lemma_strip_mag_props(n2, e2);
    }
}

/// Two canonical decimals with the same value are identical.
pub proof fn lemma_canonical_unique(x: Dec, y: Dec, ebase: int)
    requires
        x.wf(),
        y.wf(),
        ebase <= x.e,
        ebase <= y.e,
        x.scaled(ebase) == y.scaled(ebase),
    ensures
        x == y,
{
    lemma_pow10_pos((x.e - ebase) as nat);
    lemma_pow10_pos((y.e - ebase) as nat);
    if x.m == 0 || y.m == 0 {
        if x.m == 0 {
            assert(x.scaled(ebase) == 0) by (nonlinear_arith)
                requires
                    x.m == 0,
                    x.scaled(ebase) == x.m * pow10((x.e - ebase) as nat),
            ;
            assert(y.m * pow10((y.e - ebase) as nat) == 0);
            assert(y.m == 0) by (nonlinear_arith)
                requires
                    y.m * pow10((y.e - ebase) as nat) == 0,
                    pow10((y.e - ebase) as nat) >= 1,
            ;
        } else {
            assert(y.scaled(ebase) == 0) by (nonlinear_arith)
                requires
                    y.m == 0,
                    y.scaled(ebase) == y.m * pow10((y.e - ebase) as nat),
            ;
            assert(x.m * pow10((x.e - ebase) as nat) == 0);
            assert(x.m == 0) by (nonlinear_arith)
                requires
                    x.m * pow10((x.e - ebase) as nat) == 0,
                    pow10((x.e - ebase) as nat) >= 1,
            ;
        }
        assert(x.m == 0 && y.m == 0);
        assert(x.e == 0 && y.e == 0);
    } else {
        if x.e > y.e {
            let d = (x.e - y.e) as nat;
            lemma_pow10_add(d, (y.e - ebase) as nat);
            assert(x.m * (pow10(d) * pow10((y.e - ebase) as nat)) == (x.m * pow10(d)) * pow10(
                (y.e - ebase) as nat,
            )) by (nonlinear_arith);
            lemma_pow10_cancel(x.m * pow10(d), y.m as int, (y.e - ebase) as nat);
            lemma_mul_pow10_div10(x.m as int, d);
            assert(false);
        } else if y.e > x.e {
            let d = (y.e - x.e) as nat;
            lemma_pow10_add(d, (x.e - ebase) as nat);
            assert(y.m * (pow10(d) * pow10((x.e - ebase) as nat)) == (y.m * pow10(d)) * pow10(
                (x.e - ebase) as nat,
            )) by (nonlinear_arith);
            lemma_pow10_cancel(y.m * pow10(d), x.m as int, (x.e - ebase) as nat);
            lemma_mul_pow10_div10(y.m as int, d);
            assert(false);
        } else {
            lemma_pow10_cancel(x.m as int, y.m as int, (x.e - ebase) as nat);
        }
    }
}


/// The ordering of two canonical decimals, at their common base.
pub open spec fn dec_lt_spec(a: Dec, b: Dec) -> bool {
    a.scaled(min_e(a, b)) < b.scaled(min_e(a, b))
}

/// A scaled value keeps the sign of its mantissa.
pub proof fn lemma_scaled_sign(a: Dec, ebase: int)
    ensures
        a.m > 0 ==> a.scaled(ebase) > 0,
        a.m < 0 ==> a.scaled(ebase) < 0,
        a.m == 0 ==> a.scaled(ebase) == 0,
        abs(a.scaled(ebase)) == abs(a.m as int) * pow10((a.e - ebase) as nat),
{
    lemma_pow10_pos((a.e - ebase) as nat);
    assert((a.m > 0 ==> a.m * pow10((a.e - ebase) as nat) > 0) && (a.m < 0 ==> a.m * pow10(
        (a.e - ebase) as nat,
    ) < 0) && (a.m == 0 ==> a.m * pow10((a.e - ebase) as nat) == 0) && abs(
        a.m * pow10((a.e - ebase) as nat),
    ) == abs(a.m as int) * pow10((a.e - ebase) as nat)) by (nonlinear_arith)
        requires
            pow10((a.e - ebase) as nat) >= 1,
    ;
}

/// With exponents nineteen or more apart, the value with the greater
/// exponent has the strictly greater magnitude.
proof fn lemma_far_magnitude(a: Dec, b: Dec)
    requires
        a.wf(),
        b.wf(),
        a.m != 0,
        b.m != 0,
        a.e as int - b.e as int >= 19,
    ensures
        abs(a.scaled(b.e as int)) > abs(b.scaled(b.e as int)),
{
    let d = (a.e - b.e) as nat;
    lemma_pow10_18();
    lemma_pow10_mono(19, d);
    lemma_scaled_sign(a, b.e as int);
    lemma_scaled_sign(b, b.e as int);
    assert(pow10(0) == 1);
    assert(abs(b.m as int) * pow10(0) == abs(b.m as int)) by (nonlinear_arith)
        requires
            pow10(0) == 1,
    ;
    assert(abs(a.m as int) * pow10(d) >= pow10(d)) by (nonlinear_arith)
        requires
            abs(a.m as int) >= 1,
            pow10(d) >= 1,
    ;
}

impl Dec {
    /// Strict order on values: `self < other`.
    pub fn lt_dec(&self, other: &Dec) -> (r: bool)
        requires
            self.wf(),
            other.wf(),
        ensures
            r == dec_lt_spec(*self, *other),
    {
        let a = *self;
        let b = *other;
        let ghost emin = min_e(a, b);
        proof {
            lemma_scaled_sign(a, emin);
            lemma_scaled_sign(b, emin);
        }
        let sa: i32 = if a.m > 0 {
            1
        } else if a.m < 0 {
            -1
        } else {
            0
        };
        let sb: i32 = if b.m > 0 {
            1
        } else if b.m < 0 {
            -1
        } else {
            0
        };
        if sa != sb {
            return sa < sb;
        }
        if sa == 0 {
            return false;
        }
        let d: i64 = a.e as i64 - b.e as i64;
        if d >= 19 {
            proof {
                lemma_far_magnitude(a, b);
            }
            return sa < 0;
        }
        if d <= -19 {
            proof {
                lemma_far_magnitude(b, a);
            }
            return sa > 0;
        }
        let emin_exec: i64 = if a.e <= b.e {
            a.e as i64
        } else {
            b.e as i64
        };
        proof {
            lemma_pow10_18();
            lemma_pow10_mono((a.e as i64 - emin_exec) as nat, 18);
            lemma_pow10_mono((b.e as i64 - emin_exec) as nat, 18);
            lemma_pow10_pos((a.e as i64 - emin_exec) as nat);
            lemma_pow10_pos((b.e as i64 - emin_exec) as nat);
            assert(abs((a.m as int) * pow10((a.e as i64 - emin_exec) as nat)) <= abs(a.m as int)
                * pow10(18) && abs((b.m as int) * pow10((b.e as i64 - emin_exec) as nat)) <= abs(
                b.m as int,
            ) * pow10(18)) by (nonlinear_arith)
                requires
                    1 <= pow10((a.e as i64 - emin_exec) as nat) <= pow10(18),
                    1 <= pow10((b.e as i64 - emin_exec) as nat) <= pow10(18),
            ;
            assert(abs(a.m as int) * pow10(18) < (MANT_LIMIT as int) * pow10(18)
                && abs(b.m as int) * pow10(18) < (MANT_LIMIT as int) * pow10(18))
                by (nonlinear_arith)
                requires
                    abs(a.m as int) < MANT_LIMIT as int,
                    abs(b.m as int) < MANT_LIMIT as int,
                    pow10(18) >= 1,
            ;
            assert((MANT_LIMIT as int) * pow10(18) == 1000000000000000000000000000000000000int);
        }
        let av: i128 = (a.m as i128) * pow10_i128((a.e as i64 - emin_exec) as u32);
        let bv: i128 = (b.m as i128) * pow10_i128((b.e as i64 - emin_exec) as u32);
        av < bv
    }

    /// Order or equality on values: `self <= other`.
    pub fn le_dec(&self, other: &Dec) -> (r: bool)
        requires
            self.wf(),
            other.wf(),
        ensures
            r == !dec_lt_spec(*other, *self),
    {
        let r = other.lt_dec(self);
        !r
    }
}

/// A sequence of `k` zero digits.
pub open spec fn zeros_seq(k: nat) -> Seq<char> {
    Seq::new(k, |i: int| '0')
}

/// The decimal rendering of a canonical decimal: the plain positional
/// notation of `m * 10^e`, with no trailing fractional zeros.
pub open spec fn dec_chars(d: Dec) -> Seq<char> {
    let mag = abs(d.m as int) as nat;
    let ds = digits_of(mag);
    let core = if d.e >= 0 {
        ds + zeros_seq(d.e as nat)
    } else {
        let f = (-(d.e as int)) as nat;
        if f < ds.len() {
            ds.subrange(0, ds.len() - f) + seq!['.'] + ds.subrange(ds.len() - f, ds.len() as int)
        } else {
            seq!['0', '.'] + zeros_seq((f - ds.len()) as nat) + ds
        }
    };
    if d.m < 0 {
        seq!['-'] + core
    } else {
        core
    }
}

/// Appends `src[from..to]` to `dst`.
pub(crate) fn push_range(dst: &mut Vec<char>, src: &Vec<char>, from: usize, to: usize)
    requires
        from <= to <= src.len(),
    ensures
        final(dst)@ == old(dst)@ + src@.subrange(from as int, to as int),
{
    let mut k = from;
    while k < to
        invariant
            from <= k <= to <= src.len(),
            dst@ == old(dst)@ + src@.subrange(from as int, k as int),
        decreases to - k,
    {
        dst.push(src[k]);
        k = k + 1;
        assert(dst@ =~= old(dst)@ + src@.subrange(from as int, k as int));
    }
    assert(dst@ =~= old(dst)@ + src@.subrange(from as int, to as int));
}

/// Appends `k` zero digits to `dst`.
pub(crate) fn push_zeros(dst: &mut Vec<char>, k: usize)
    ensures
        final(dst)@ == old(dst)@ + zeros_seq(k as nat),
{
    let mut i: usize = 0;
    while i < k
        invariant
            i <= k,
            dst@ == old(dst)@ + zeros_seq(i as nat),
        decreases k - i,
    {
        dst.push('0');
        i = i + 1;
        assert(dst@ =~= old(dst)@ + zeros_seq(i as nat));
    }
    assert(dst@ =~= old(dst)@ + zeros_seq(k as nat));
}

impl Dec {
    /// The characters of the decimal rendering.
    pub fn to_chars(&self) -> (r: Vec<char>)
        ensures
            r@ == dec_chars(*self),
    {
        let mag: u64 = if self.m < 0 {
            (-(self.m as i128)) as u64
        } else {
            self.m as u64
        };
        let ds = u64_digits(mag);
        let mut out: Vec<char> = Vec::new();
        if self.m < 0 {
            out.push('-');
        }
        let ghost head: Seq<char> = out@;
        if self.e >= 0 {
            push_range(&mut out, &ds, 0, ds.len());
            proof {
                assert(ds@.subrange(0, ds@.len() as int) =~= ds@);
            }
            push_zeros(&mut out, self.e as usize);
            proof {
                assert(out@ =~= head + (ds@ + zeros_seq(self.e as nat)));
            }
        } else {
            let f: usize = (-(self.e as i64)) as usize;
            if f < ds.len() {
                let cut = ds.len() - f;
                push_range(&mut out, &ds, 0, cut);
                out.push('.');
                push_range(&mut out, &ds, cut, ds.len());
                proof {
                    assert(out@ =~= head + (ds@.subrange(0, cut as int) + seq!['.']
                        + ds@.subrange(cut as int, ds@.len() as int)));
                }
            } else {
                out.push('0');
                out.push('.');
                push_zeros(&mut out, f - ds.len());
                push_range(&mut out, &ds, 0, ds.len());
                proof {
                    assert(ds@.subrange(0, ds@.len() as int) =~= ds@);
                    assert(out@ =~= head + (seq!['0', '.'] + zeros_seq((f - ds@.len()) as nat)
                        + ds@));
                }
            }
        }
        out
    }

    /// The decimal rendering as a string.
    pub fn to_display_string(&self) -> (r: String)
        ensures
            r@ == dec_chars(*self),
    {
        let v = self.to_chars();
        chars_to_string(&v)
    }
}

} // verus!
