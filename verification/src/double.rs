//! Binary floating-point numbers of 64 bits, computed with integers.
//!
//! A [`Double`] holds the bits of an IEEE 754 binary64 number. Similarity
//! scores and the thresholds they are held against are such numbers. The
//! arithmetic that scores need is done here on the bits, and each operation is
//! proved to return the number nearest to the exact result, ties going to the
//! number with the even bit pattern.

use crate::normalize::times;
use vstd::arithmetic::power2::*;
use vstd::prelude::*;

verus! {

/// One more than the greatest fraction field.
pub const FRACTION: u64 = 0x10_0000_0000_0000;

/// The bits of positive infinity.
pub const INFINITY: u64 = 0x7FF0_0000_0000_0000;

/// The sign bit.
pub const SIGN: u64 = 0x8000_0000_0000_0000;

/// A binary64 number, by its bits.
#[derive(Clone, Copy, Debug)]
pub struct Double {
    /// The bits of the number.
    pub bits: u64,
}

/// The bits of the number one.
pub const ONE: u64 = 0x3FF0_0000_0000_0000;

/// `2^1074`: how many units make one.
pub open spec fn unit_count() -> nat {
    pow2(1074)
}

/// The value of the non-negative number with the bits `b`, in units of
/// `2^-1074`. Positive infinity counts as `2^1024`, which is where rounding
/// begins to give it.
pub open spec fn units(b: u64) -> nat {
    let exponent = b / FRACTION;
    let fraction = b % FRACTION;
    if exponent == 0 {
        fraction as nat
    } else {
        ((FRACTION + fraction) as nat) * pow2((exponent - 1) as nat)
    }
}

/// How far the number with the bits `b` is from `num / den`, times `den`.
pub open spec fn distance(b: u64, num: nat, den: nat) -> int {
    let d = units(b) * den - num;
    if d >= 0 {
        d
    } else {
        -d
    }
}

/// Whether `b` is the number nearest to `num / den` units: none is nearer, and
/// another that is as near does not have the even bit pattern.
pub open spec fn is_nearest(b: u64, num: nat, den: nat) -> bool {
    &&& b <= INFINITY
    &&& forall|c: u64|
        c <= INFINITY ==> {
            ||| distance(b, num, den) < #[trigger] distance(c, num, den)
            ||| distance(b, num, den) == distance(c, num, den) && (c == b || b % 2 == 0)
        }
}

/// The number nearest to `num / den` units.
pub open spec fn nearest(num: nat, den: nat) -> u64 {
    choose|b: u64| is_nearest(b, num, den)
}

/// Each number is less than the next.
proof fn lemma_units_step(b: u64)
    requires
        b < INFINITY,
    ensures
        units(b) < units((b + 1) as u64),
{
    let c = (b + 1) as u64;
    let e = b / FRACTION;
    let f = b % FRACTION;
    if f == FRACTION - 1 {
        assert(c / FRACTION == e + 1 && c % FRACTION == 0);
        assert(units(c) == (FRACTION as nat) * pow2(e as nat));
        if e == 0 {
            lemma2_to64();
            assert(units(c) == FRACTION);
        } else {
            lemma_pow2_unfold(e as nat);
            let p = pow2((e - 1) as nat);
            lemma_pow2_pos((e - 1) as nat);
            assert((FRACTION + f) * p < FRACTION * (2 * p)) by (nonlinear_arith)
                requires
                    f < FRACTION,
                    p > 0,
            ;
            assert(units(b) == (FRACTION + f) * p);
        }
    } else {
        assert(c / FRACTION == e && c % FRACTION == f + 1);
        if e > 0 {
            let p = pow2((e - 1) as nat);
            lemma_pow2_pos((e - 1) as nat);
            assert((FRACTION + f) * p < (FRACTION + (f + 1)) * p) by (nonlinear_arith)
                requires
                    p > 0,
            ;
            assert(units(b) == (FRACTION + f) * p);
            assert(units(c) == (FRACTION + (f + 1)) * p);
        }
    }
}

/// The order of the bits is the order of the numbers.
pub proof fn lemma_units_order(a: u64, b: u64)
    requires
        a < b <= INFINITY,
    ensures
        units(a) < units(b),
    decreases b - a,
{
    if a + 1 < b {
        lemma_units_order(a, (b - 1) as u64);
    }
    lemma_units_step((b - 1) as u64);
}

/// Scaling keeps the order.
proof fn lemma_scaled(a: nat, b: nat, den: nat)
    requires
        a < b,
        den > 0,
    ensures
        a * den < b * den,
{
    assert(a * den < b * den) by (nonlinear_arith)
        requires
            a < b,
            den > 0,
    ;
}

/// At most one number is nearest.
pub proof fn lemma_nearest_unique(a: u64, b: u64, num: nat, den: nat)
    requires
        den > 0,
        is_nearest(a, num, den),
        is_nearest(b, num, den),
    ensures
        a == b,
{
    if a != b {
        let (lo, hi) = if a < b {
            (a, b)
        } else {
            (b, a)
        };
        assert(distance(lo, num, den) == distance(hi, num, den));
        assert(lo % 2 == 0 && hi % 2 == 0);
        let mid = (lo + 1) as u64;
        lemma_units_order(lo, mid);
        lemma_units_order(mid, hi);
        lemma_scaled(units(lo), units(mid), den);
        lemma_scaled(units(mid), units(hi), den);
        assert(distance(mid, num, den) < distance(lo, num, den));
    }
}

/// A number that is nearest is the one that `nearest` names.
pub proof fn lemma_nearest(b: u64, num: nat, den: nat)
    requires
        den > 0,
        is_nearest(b, num, den),
    ensures
        nearest(num, den) == b,
{
    lemma_nearest_unique(nearest(num, den), b, num, den);
}

/// Between two neighbours, the nearer one is the nearest of all.
proof fn lemma_between(b: u64, num: nat, den: nat)
    requires
        den > 0,
        b < INFINITY,
        units(b) * den <= num < units((b + 1) as u64) * den,
    ensures
        ({
            let sum = (units(b) + units((b + 1) as u64)) * den;
            &&& 2 * num < sum || (2 * num == sum && b % 2 == 0) ==> is_nearest(b, num, den)
            &&& 2 * num > sum || (2 * num == sum && b % 2 == 1) ==> is_nearest(
                (b + 1) as u64,
                num,
                den,
            )
        }),
{
    let c = (b + 1) as u64;
    assert((units(b) + units(c)) * den == units(b) * den + units(c) * den) by (nonlinear_arith);
    assert forall|x: u64| x <= INFINITY implies {
        ||| x == b
        ||| x == c
        ||| x < b && distance(x, num, den) > distance(b, num, den)
        ||| x > c && distance(x, num, den) > distance(c, num, den)
    } by {
        if x < b {
            lemma_units_order(x, b);
            lemma_scaled(units(x), units(b), den);
        } else if x > c {
            lemma_units_order(c, x);
            lemma_scaled(units(c), units(x), den);
        }
    }
    assert forall|x: u64| x <= INFINITY implies (#[trigger] distance(x, num, den) >= distance(
        b,
        num,
        den,
    ) || x >= c) && (distance(x, num, den) >= distance(c, num, den) || x <= b) by {}
}

/// No number above a bound of the exact result is nearest to it.
pub proof fn lemma_nearest_at_most(b: u64, c: u64, num: nat, den: nat)
    requires
        den > 0,
        is_nearest(b, num, den),
        c <= INFINITY,
        num <= units(c) * den,
    ensures
        b <= c,
{
    if b > c {
        lemma_units_order(c, b);
        lemma_scaled(units(c), units(b), den);
        assert(distance(b, num, den) > distance(c, num, den));
    }
}

/// Whether `q * 2^s` half units is the greatest multiple of `2^s` that is not
/// above `num / den` units, and `sticky` tells whether it falls short of it.
pub open spec fn truncates(q: nat, s: nat, sticky: bool, num: nat, den: nat) -> bool {
    &&& den > 0
    &&& q * pow2(s) * den <= 2 * num < (q + 1) * pow2(s) * den
    &&& sticky <==> q * pow2(s) * den != 2 * num
}

/// `2^128` is the first number that 128 bits do not hold.
proof fn lemma_pow2_128()
    ensures
        pow2(128) == u128::MAX + 1,
{
    lemma2_to64();
    lemma2_to64_rest();
    lemma_pow2_adds(64, 64);
}

/// A power of two that is less than another has a lower exponent.
proof fn lemma_pow2_less(a: nat, b: nat)
    requires
        pow2(a) < pow2(b),
    ensures
        a < b,
{
    if b < a {
        lemma_pow2_strictly_increases(b, a);
    }
}

/// The number of binary digits of `q`.
fn bit_length(q: u128) -> (r: u32)
    requires
        q > 0,
    ensures
        1 <= r <= 128,
        pow2((r - 1) as nat) <= q < pow2(r as nat),
    decreases q,
{
    proof {
        lemma2_to64();
        lemma_pow2_128();
    }
    if q == 1 {
        1
    } else {
        let h = bit_length(q / 2);
        proof {
            lemma_pow2_unfold(h as nat);
            lemma_pow2_unfold((h + 1) as nat);
            lemma_pow2_less(h as nat, 128);
        }
        h + 1
    }
}

/// `2^n`.
fn power(n: u32) -> (r: u128)
    requires
        n < 128,
    ensures
        r == pow2(n as nat),
    decreases n,
{
    proof {
        lemma2_to64();
    }
    if n == 0 {
        1
    } else {
        let h = power(n - 1);
        proof {
            lemma_pow2_unfold(n as nat);
            lemma_pow2_128();
            if n < 127 {
                lemma_pow2_strictly_increases(n as nat, 127);
            }
            lemma_pow2_unfold(128);
        }
        h * 2
    }
}

/// Rewriting the exact value with a different exponent.
proof fn lemma_shift_up(q: nat, s: nat, sticky: bool, num: nat, den: nat)
    requires
        s > 0,
        !sticky,
        truncates(q, s, sticky, num, den),
    ensures
        truncates(2 * q, (s - 1) as nat, sticky, num, den),
{
    lemma_pow2_unfold(s);
    let p = pow2((s - 1) as nat);
    lemma_pow2_pos((s - 1) as nat);
    assert(q * (2 * p) * den == (2 * q) * p * den) by (nonlinear_arith);
    assert((2 * q) * p * den < (2 * q + 1) * p * den) by (nonlinear_arith)
        requires
            p > 0,
            den > 0,
    ;
}

/// What `m` and the rest of `q` beyond its lowest `t` bits say of the exact
/// value.
proof fn lemma_parts(q: nat, s: nat, sticky: bool, num: nat, den: nat, t: nat, m: nat, rem: nat)
    requires
        truncates(q, s, sticky, num, den),
        t >= 1,
        q == m * pow2(t) + rem,
        rem < pow2(t),
    ensures
        ({
            let w = pow2((s + t - 1) as nat);
            let half = pow2((t - 1) as nat);
            &&& w > 0
            &&& (m * w) * den <= num < ((m + 1) * w) * den
            &&& (2 * num < (m * w + (m + 1) * w) * den <==> rem < half)
            &&& (2 * num == (m * w + (m + 1) * w) * den <==> rem == half && !sticky)
        }),
{
    let p = pow2(s);
    let half = pow2((t - 1) as nat);
    let w = pow2((s + t - 1) as nat);
    lemma_pow2_pos(s);
    lemma_pow2_pos((t - 1) as nat);
    lemma_pow2_unfold(t);
    lemma_pow2_adds(s, (t - 1) as nat);
    assert(w == p * half);
    assert(p * half > 0) by (nonlinear_arith)
        requires
            p > 0,
            half > 0,
    ;
    let lo = q * p * den;
    let up = (q + 1) * p * den;
    // In half units: lo <= 2 * num < up.
    assert((m * w) * den * 2 == (m * (2 * half)) * p * den) by (nonlinear_arith)
        requires
            w == p * half,
    ;
    assert(((m + 1) * w) * den * 2 == ((m + 1) * (2 * half)) * p * den) by (nonlinear_arith)
        requires
            w == p * half,
    ;
    assert((m * w + (m + 1) * w) * den == (m * (2 * half) + half) * p * den) by (nonlinear_arith)
        requires
            w == p * half,
    ;
    assert((m + 1) * (2 * half) == m * (2 * half) + 2 * half) by (nonlinear_arith);
    let base = m * (2 * half);
    assert(forall|x: nat, y: nat| x <= y ==> #[trigger] (x * p * den) <= #[trigger] (y * p * den))
        by (nonlinear_arith)
        requires
            p > 0,
            den > 0,
    ;
    assert(base * p * den <= q * p * den);
    assert((q + 1) * p * den <= (base + 2 * half) * p * den);
    if rem < half {
        assert((q + 1) * p * den <= (base + half) * p * den);
    } else {
        assert((base + half) * p * den <= q * p * den);
        if rem > half {
            assert((base + half) * p * den < q * p * den) by (nonlinear_arith)
                requires
                    base + half < q,
                    p > 0,
                    den > 0,
            ;
        }
    }
}

/// The number with the lowest bit worth `2^e` units and `m` times it.
proof fn lemma_encoded(m: u64, e: nat)
    requires
        m < 2 * FRACTION,
        e == 0 || m >= FRACTION,
        e <= 2000,
    ensures
        ({
            let b = (m + e * FRACTION) as u64;
            &&& m + e * FRACTION < INFINITY
            &&& units(b) == m * pow2(e)
            &&& units((b + 1) as u64) == (m + 1) * pow2(e)
        }),
{
    lemma2_to64();
    assert(e * FRACTION <= 2000 * FRACTION) by (nonlinear_arith)
        requires
            e <= 2000,
    ;
    let b = (m + e * FRACTION) as u64;
    lemma_encoded_exact(m as nat, e, b);
    let c = (b + 1) as u64;
    if m + 1 < 2 * FRACTION {
        lemma_encoded_exact((m + 1) as nat, e, c);
    } else {
        lemma_pow2_unfold(e + 1);
        assert((e + 1) * FRACTION == e * FRACTION + FRACTION) by (nonlinear_arith);
        lemma_encoded_exact(FRACTION as nat, e + 1, c);
        let p = pow2(e);
        assert((2 * FRACTION) * p == FRACTION * (2 * p)) by (nonlinear_arith);
    }
}

proof fn lemma_encoded_exact(m: nat, e: nat, b: u64)
    requires
        m < 2 * FRACTION,
        e == 0 || m >= FRACTION,
        e <= 2001,
        b == m + e * FRACTION,
    ensures
        units(b) == m * pow2(e),
{
    lemma2_to64();
    if m < FRACTION {
        assert(b / FRACTION == 0 && b % FRACTION == m);
        assert(m * pow2(0) == m);
    } else {
        let f = (m - FRACTION) as nat;
        assert(b == (e + 1) * FRACTION + f) by (nonlinear_arith)
            requires
                b == m + e * FRACTION,
                f == m - FRACTION,
        ;
        vstd::arithmetic::div_mod::lemma_fundamental_div_mod_converse(
            b as int,
            FRACTION as int,
            (e + 1) as int,
            f as int,
        );
        assert(b / FRACTION == e + 1 && b % FRACTION == f);
    }
}

/// Half of less than twice a number is less than the number.
proof fn lemma_half(m: int, rem: int, q: int, p: int)
    requires
        m * 2 + rem == q,
        rem >= 0,
        q < 2 * p,
    ensures
        m < p,
{
}

/// The number nearest to the value that `q`, `s` and `sticky` describe.
#[verifier::spinoff_prover]
fn encode(q: u128, s: u32, sticky: bool) -> (r: u64)
    requires
        q > 0,
        s <= 1900,
        sticky ==> q >= pow2(54) || s == 0,
    ensures
        forall|num: nat, den: nat| #[trigger]
            truncates(q as nat, s as nat, sticky, num, den) ==> is_nearest(r, num, den),
{
    let mut q1: u128 = q;
    let mut s1: u32 = s;
    proof {
        lemma2_to64();
        lemma2_to64_rest();
    }
    while s1 > 0 && q1 < 0x40_0000_0000_0000
        invariant
            q1 > 0,
            s1 <= s,
            s <= 1900,
            sticky ==> q >= pow2(54) || s == 0,
            pow2(54) == 0x40_0000_0000_0000,
            sticky ==> q1 == q && s1 == s,
            forall|num: nat, den: nat| #[trigger]
                truncates(q as nat, s as nat, sticky, num, den) ==> truncates(
                    q1 as nat,
                    s1 as nat,
                    sticky,
                    num,
                    den,
                ),
        decreases s1,
    {
        let ghost q0 = q1;
        let ghost s0 = s1;
        q1 = q1 * 2;
        s1 = s1 - 1;
        proof {
            assert forall|num: nat, den: nat| #[trigger]
                truncates(q as nat, s as nat, sticky, num, den) implies truncates(
                q1 as nat,
                s1 as nat,
                sticky,
                num,
                den,
            ) by {
                lemma_shift_up(q0 as nat, s0 as nat, sticky, num, den);
            }
        }
    }
    let len = bit_length(q1);
    let t: u32 = if len > 54 {
        len - 53
    } else {
        1
    };
    proof {
        if s1 > 0 && len < 55 {
            if len < 54 {
                lemma_pow2_strictly_increases(len as nat, 54);
            }
            assert(false);
        }
    }
    let div = power(t);
    proof {
        lemma_pow2_pos(t as nat);
    }
    let m128 = q1 / div;
    let rem = q1 % div;
    let half = power(t - 1);
    proof {
        assert(q1 == m128 * div + rem) by (nonlinear_arith)
            requires
                div > 0,
                m128 == q1 / div,
                rem == q1 % div,
        ;
        lemma_pow2_adds(t as nat, 53);
        lemma_pow2_adds(t as nat, 52);
        if len > 54 {
            assert(m128 < pow2(53)) by (nonlinear_arith)
                requires
                    q1 == m128 * div + rem,
                    q1 < div * pow2(53),
                    rem >= 0,
                    div > 0,
            ;
            assert(m128 >= pow2(52)) by (nonlinear_arith)
                requires
                    q1 == m128 * div + rem,
                    q1 >= div * pow2(52),
                    rem < div,
                    div > 0,
            ;
        } else {
            if len < 54 {
                lemma_pow2_strictly_increases(len as nat, 54);
            }
            lemma_pow2_unfold(54);
            assert(pow2(1) == 2) by {
                lemma2_to64();
            }
            assert(m128 * 2 + rem == q1);
            assert(q1 < 2 * pow2(53));
            lemma_half(m128 as int, rem as int, q1 as int, pow2(53) as int);
        }
    }
    let m: u64 = m128 as u64;
    let e: u64 = s1 as u64 + t as u64 - 1;
    proof {
        lemma_encoded(m, e as nat);
        assert(e * FRACTION <= 2000 * FRACTION) by (nonlinear_arith)
            requires
                e <= 2000,
        ;
    }
    let b: u64 = m + e * FRACTION;
    let up = rem > half || (rem == half && (sticky || m % 2 == 1));
    proof {
        assert(b % 2 == m % 2) by {
            assert(e * FRACTION == 2 * (e * 0x8_0000_0000_0000)) by (nonlinear_arith)
                requires
                    FRACTION == 2 * 0x8_0000_0000_0000,
            ;
        }
        let r = if up {
            (b + 1) as u64
        } else {
            b
        };
        assert forall|num: nat, den: nat| #[trigger]
            truncates(q as nat, s as nat, sticky, num, den) implies is_nearest(r, num, den) by {
            lemma_parts(
                q1 as nat,
                s1 as nat,
                sticky,
                num,
                den,
                t as nat,
                m as nat,
                rem as nat,
            );
            lemma_between(b, num, den);
        }
    }
    if up {
        b + 1
    } else {
        b
    }
}

/// As [`truncates`], with an exponent that may be negative.
pub open spec fn truncates_at(q: nat, s: int, sticky: bool, num: nat, den: nat) -> bool {
    if s >= 0 {
        truncates(q, s as nat, sticky, num, den)
    } else {
        let scale = pow2((-s) as nat);
        &&& den > 0
        &&& q * den <= 2 * num * scale < (q + 1) * den
        &&& sticky <==> q * den != 2 * num * scale
    }
}

/// Dropping the bits of `q` below half a unit.
proof fn lemma_drop(q: nat, n: nat, sticky: bool, num: nat, den: nat, m: nat, rem: nat)
    requires
        n > 0,
        truncates_at(q, -(n as int), sticky, num, den),
        q == m * pow2(n) + rem,
        rem < pow2(n),
    ensures
        truncates(m, 0, sticky || rem != 0, num, den),
{
    let p = pow2(n);
    lemma_pow2_pos(n);
    lemma2_to64();
    let x = 2 * num;
    assert((m * p) * den == (m * den) * p) by (nonlinear_arith);
    assert(((m + 1) * p) * den == ((m + 1) * den) * p) by (nonlinear_arith);
    assert((m + 1) * p == m * p + p) by (nonlinear_arith);
    assert(q * den == (m * p) * den + rem * den) by (nonlinear_arith)
        requires
            q == m * p + rem,
    ;
    assert((q + 1) * den <= ((m + 1) * p) * den) by (nonlinear_arith)
        requires
            q + 1 <= (m + 1) * p,
    ;
    assert(rem * den >= 0 && (rem > 0 ==> rem * den > 0)) by (nonlinear_arith)
        requires
            den > 0,
            rem >= 0,
    ;
    assert(m * den <= x) by (nonlinear_arith)
        requires
            (m * den) * p <= x * p,
            p > 0,
    ;
    assert(x < (m + 1) * den) by (nonlinear_arith)
        requires
            x * p < ((m + 1) * den) * p,
            p > 0,
    ;
    if m * den == x {
        assert((m * den) * p == x * p);
    } else {
        assert((m * den) * p < x * p) by (nonlinear_arith)
            requires
                m * den < x,
                p > 0,
        ;
    }
    assert(m * pow2(0) == m && (m + 1) * pow2(0) == m + 1) by {
        assert(pow2(0) == 1);
    }
}

/// As [`encode`], with an exponent that may be negative.
fn encode_at(q: u128, s: i64, sticky: bool) -> (r: u64)
    requires
        q > 0,
        -5000 <= s <= 1900,
        sticky ==> q >= pow2(54) || s <= 0,
    ensures
        forall|num: nat, den: nat| #[trigger]
            truncates_at(q as nat, s as int, sticky, num, den) ==> is_nearest(r, num, den),
{
    if s >= 0 {
        let r = encode(q, s as u32, sticky);
        assert forall|num: nat, den: nat| #[trigger]
            truncates_at(q as nat, s as int, sticky, num, den) implies is_nearest(r, num, den) by {
            assert(truncates(q as nat, s as nat, sticky, num, den));
        }
        return r;
    }
    let n: u32 = (-s) as u32;
    let (m, rem): (u128, u128) = if n >= 128 {
        (0, q)
    } else {
        let d = power(n);
        proof {
            lemma_pow2_pos(n as nat);
        }
        (q / d, q % d)
    };
    proof {
        lemma_pow2_128();
        if n >= 128 {
            if n > 128 {
                lemma_pow2_strictly_increases(128, n as nat);
            }
            assert(0 * pow2(n as nat) == 0);
        } else {
            let d = pow2(n as nat);
            lemma_pow2_pos(n as nat);
            assert(q == m * d + rem && rem < d) by (nonlinear_arith)
                requires
                    d > 0,
                    m == q as int / d as int,
                    rem == q as int % d as int,
            ;
        }
    }
    let lost = sticky || rem != 0;
    proof {
        assert forall|num: nat, den: nat| #[trigger]
            truncates_at(q as nat, s as int, sticky, num, den) implies truncates(
            m as nat,
            0,
            lost,
            num,
            den,
        ) by {
            lemma_drop(q as nat, n as nat, sticky, num, den, m as nat, rem as nat);
        }
    }
    if m == 0 {
        proof {
            assert forall|num: nat, den: nat| #[trigger]
                truncates_at(q as nat, s as int, sticky, num, den) implies is_nearest(
                0,
                num,
                den,
            ) by {
                assert(truncates(m as nat, 0, lost, num, den));
                lemma2_to64();
                let one = pow2(0);
                assert((m + 1) * one * den == den) by (nonlinear_arith)
                    requires
                        m == 0,
                        one == 1,
                ;
                assert(units(0) == 0 && units(1) == 1);
                assert((units(0) + units(1)) * den == den);
                assert(units(0) * den == 0 && units((0 + 1) as u64) * den == den)
                    by (nonlinear_arith)
                    requires
                        units(0) == 0,
                        units((0 + 1) as u64) == 1,
                ;
                assert(0 * one * den == 0) by (nonlinear_arith);
                lemma_between(0, num, den);
            }
        }
        0
    } else {
        let r = encode(m, 0, lost);
        proof {
            assert forall|num: nat, den: nat| #[trigger]
                truncates_at(q as nat, s as int, sticky, num, den) implies is_nearest(
                r,
                num,
                den,
            ) by {
                assert(truncates(m as nat, 0, lost, num, den));
            }
        }
        r
    }
}

/// Whether `b` is zero or a positive finite number.
pub open spec fn is_finite(b: u64) -> bool {
    b < INFINITY
}

/// The significand and the exponent of a number.
fn split(b: u64) -> (r: (u64, u32))
    requires
        is_finite(b),
    ensures
        units(b) == r.0 * pow2(r.1 as nat),
        r.0 < 2 * FRACTION,
        r.1 <= 2045,
        r.1 > 0 ==> r.0 >= FRACTION,
        r.0 == 0 <==> b == 0,
        r.1 == (if b / FRACTION == 0 {
            0
        } else {
            b / FRACTION - 1
        }),
{
    let e: u64 = b / FRACTION;
    let f: u64 = b % FRACTION;
    proof {
        lemma2_to64();
    }
    if e == 0 {
        proof {
            let one = pow2(0);
            assert(f * one == f) by (nonlinear_arith)
                requires
                    one == 1,
            ;
        }
        (f, 0)
    } else {
        (FRACTION + f, (e - 1) as u32)
    }
}

/// A number that is small enough for every operation here: below `2^101`.
pub const MODERATE: u64 = 0x4640_0000_0000_0000;

/// The sum of two numbers.
pub open spec fn sum(a: u64, b: u64) -> u64 {
    nearest(units(a) + units(b), 1)
}

/// The difference of two numbers, the second being at most the first.
pub open spec fn difference(a: u64, b: u64) -> u64 {
    nearest((units(a) - units(b)) as nat, 1)
}

/// The product of two numbers.
pub open spec fn product(a: u64, b: u64) -> u64 {
    nearest(units(a) * units(b), unit_count())
}

/// The quotient of two numbers.
pub open spec fn quotient(a: u64, b: u64) -> u64 {
    nearest(units(a) * unit_count(), units(b))
}

/// The number nearest to an integer.
pub open spec fn whole(n: nat) -> u64 {
    nearest(n * unit_count(), 1)
}

/// `m * 2^e` units, written with the exponent `e - d`.
proof fn lemma_aligned(m: nat, e: nat, d: nat)
    requires
        d <= e,
    ensures
        m * pow2(e) == (m * pow2(d)) * pow2((e - d) as nat),
{
    lemma_pow2_adds(d, (e - d) as nat);
    let x = pow2(d);
    let y = pow2((e - d) as nat);
    assert(m * (x * y) == (m * x) * y) by (nonlinear_arith);
}

/// A value in units is twice as many half units.
proof fn lemma_exact(q: nat, e: nat, num: nat)
    requires
        num == q * pow2(e),
    ensures
        truncates(q, e + 1, false, num, 1),
{
    lemma_pow2_unfold(e + 1);
    let p = pow2(e);
    lemma_pow2_pos(e);
    assert(q * (2 * p) == 2 * (q * p)) by (nonlinear_arith);
    assert((q + 1) * (2 * p) == 2 * (q * p) + 2 * p) by (nonlinear_arith);
}

/// A value strictly between two multiples of `2^e` units.
proof fn lemma_inexact(q: nat, e: nat, num: nat)
    requires
        q * pow2(e) < num < (q + 1) * pow2(e),
    ensures
        truncates(q, e + 1, true, num, 1),
{
    lemma_pow2_unfold(e + 1);
    let p = pow2(e);
    assert(q * (2 * p) == 2 * (q * p)) by (nonlinear_arith);
    assert((q + 1) * (2 * p) == 2 * ((q + 1) * p)) by (nonlinear_arith);
}

/// Far below the lowest bit of another number.
proof fn lemma_far(m: nat, e: nat, big: nat)
    requires
        m < 2 * FRACTION,
        e + 64 < big,
    ensures
        m * pow2(e) < pow2((big - 10) as nat),
{
    lemma2_to64();
    lemma2_to64_rest();
    lemma_pow2_adds(53, e);
    let p = pow2(e);
    lemma_pow2_pos(e);
    assert(m * p <= (2 * FRACTION) * p) by (nonlinear_arith)
        requires
            m <= 2 * FRACTION,
    ;
    if e + 53 < big - 10 {
        lemma_pow2_strictly_increases(e + 53, (big - 10) as nat);
    }
}

impl Double {
    /// The number with the bits `bits`.
    pub fn from_bits(bits: u64) -> (r: Double)
        ensures
            r.bits == bits,
    {
        Double { bits }
    }

    /// The bits of the number.
    pub fn to_bits(&self) -> (r: u64)
        ensures
            r == self.bits,
    {
        self.bits
    }

    /// The number nearest to `n`.
    pub fn from_usize(n: usize) -> (r: Double)
        ensures
            r.bits == whole(n as nat),
            is_nearest(r.bits, (n as nat) * unit_count(), 1),
    {
        Double::from_u128(n as u128)
    }

    /// The number nearest to `n`.
    pub fn from_u128(n: u128) -> (r: Double)
        ensures
            r.bits == whole(n as nat),
            is_nearest(r.bits, (n as nat) * unit_count(), 1),
    {
        let ghost num = (n as nat) * unit_count();
        if n == 0 {
            proof {
                lemma2_to64();
                assert(units(0) == 0 && units(1) == 1);
                lemma_between(0, 0, 1);
                lemma_nearest(0, num, 1);
            }
            return Double { bits: 0 };
        }
        proof {
            lemma_exact(n as nat, 1074, num);
        }
        let r = encode(n, 1075, false);
        proof {
            lemma_nearest(r, num, 1);
        }
        Double { bits: r }
    }

    /// Adds two numbers.
    pub fn plus(self, other: Double) -> (r: Double)
        requires
            self.bits < MODERATE,
            other.bits < MODERATE,
        ensures
            r.bits == sum(self.bits, other.bits),
            is_nearest(r.bits, units(self.bits) + units(other.bits), 1),
    {
        let (a, b) = if self.bits >= other.bits {
            (self.bits, other.bits)
        } else {
            (other.bits, self.bits)
        };
        let (ma, ea) = split(a);
        let (mb, eb) = split(b);
        let ghost num = units(self.bits) + units(other.bits);
        assert(num == units(a) + units(b));
        if a == 0 {
            proof {
                lemma2_to64();
                assert(units(0) == 0 && units(1) == 1);
                lemma_between(0, 0, 1);
                lemma_nearest(0, num, 1);
            }
            return Double { bits: 0 };
        }
        proof {
            assert(b / FRACTION <= a / FRACTION);
        }
        let r = if ea - eb <= 64 {
            let d: u32 = ea - eb;
            let p = power(d);
            proof {
                lemma_aligned(ma as nat, ea as nat, d as nat);
                lemma2_to64();
                lemma2_to64_rest();
                if d < 64 {
                    lemma_pow2_strictly_increases(d as nat, 64);
                }
                lemma_pow2_pos(d as nat);
                assert(0 < ma * p <= (2 * FRACTION) * 0x1_0000_0000_0000_0000) by (nonlinear_arith)
                    requires
                        0 < ma <= 2 * FRACTION,
                        0 < p <= 0x1_0000_0000_0000_0000,
                ;
                let x = pow2(eb as nat);
                assert((ma * p + mb) * x == (ma * p) * x + mb * x) by (nonlinear_arith);
                lemma_exact((ma * p + mb) as nat, eb as nat, num);
            }
            encode(ma as u128 * p + mb as u128, eb + 1, false)
        } else {
            let q: u128 = ma as u128 * 1024;
            proof {
                lemma2_to64();
                lemma2_to64_rest();
                lemma_far(mb as nat, eb as nat, ea as nat);
                lemma_aligned(ma as nat, ea as nat, 10);
                let x = pow2((ea - 10) as nat);
                assert((q + 1) * x == q * x + x) by (nonlinear_arith);
                if mb > 0 {
                    lemma_pow2_pos(eb as nat);
                    assert(mb * pow2(eb as nat) > 0) by (nonlinear_arith)
                        requires
                            mb > 0,
                            pow2(eb as nat) > 0,
                    ;
                    lemma_inexact(q as nat, (ea - 10) as nat, num);
                } else {
                    assert(0 * pow2(eb as nat) == 0);
                    lemma_exact(q as nat, (ea - 10) as nat, num);
                }
            }
            encode(q, ea - 9, mb > 0)
        };
        proof {
            lemma_nearest(r, num, 1);
        }
        Double { bits: r }
    }

    /// Subtracts a number that is not greater.
    pub fn minus(self, other: Double) -> (r: Double)
        requires
            other.bits <= self.bits < MODERATE,
        ensures
            r.bits == difference(self.bits, other.bits),
            is_nearest(r.bits, (units(self.bits) - units(other.bits)) as nat, 1),
    {
        let a = self.bits;
        let b = other.bits;
        let ghost num = (units(a) - units(b)) as nat;
        if a == b {
            proof {
                lemma2_to64();
                assert(units(0) == 0 && units(1) == 1);
                lemma_between(0, 0, 1);
                lemma_nearest(0, num, 1);
            }
            return Double { bits: 0 };
        }
        let (ma, ea) = split(a);
        let (mb, eb) = split(b);
        proof {
            lemma_units_order(b, a);
            assert(b / FRACTION <= a / FRACTION);
        }
        let r = if ea - eb <= 64 {
            let d: u32 = ea - eb;
            let p = power(d);
            proof {
                lemma_aligned(ma as nat, ea as nat, d as nat);
                lemma2_to64();
                lemma2_to64_rest();
                if d < 64 {
                    lemma_pow2_strictly_increases(d as nat, 64);
                }
                lemma_pow2_pos(d as nat);
                assert(0 < ma * p <= (2 * FRACTION) * 0x1_0000_0000_0000_0000) by (nonlinear_arith)
                    requires
                        0 < ma <= 2 * FRACTION,
                        0 < p <= 0x1_0000_0000_0000_0000,
                ;
                let x = pow2(eb as nat);
                assert(ma * p > mb) by (nonlinear_arith)
                    requires
                        (ma * p) * x > mb * x,
                        x >= 0,
                ;
                assert((ma * p - mb) * x == (ma * p) * x - mb * x) by (nonlinear_arith);
                lemma_exact((ma * p - mb) as nat, eb as nat, num);
            }
            encode(ma as u128 * p - mb as u128, eb + 1, false)
        } else {
            let whole_q: u128 = ma as u128 * 1024;
            let q: u128 = if mb > 0 {
                whole_q - 1
            } else {
                whole_q
            };
            proof {
                lemma2_to64();
                lemma2_to64_rest();
                lemma_far(mb as nat, eb as nat, ea as nat);
                lemma_aligned(ma as nat, ea as nat, 10);
                let x = pow2((ea - 10) as nat);
                assert((whole_q - 1) * x == whole_q * x - x) by (nonlinear_arith);
                if mb > 0 {
                    lemma_pow2_pos(eb as nat);
                    assert(mb * pow2(eb as nat) > 0) by (nonlinear_arith)
                        requires
                            mb > 0,
                            pow2(eb as nat) > 0,
                    ;
                    lemma_inexact(q as nat, (ea - 10) as nat, num);
                } else {
                    assert(0 * pow2(eb as nat) == 0);
                    lemma_exact(q as nat, (ea - 10) as nat, num);
                }
            }
            encode(q, ea - 9, mb > 0)
        };
        proof {
            lemma_nearest(r, num, 1);
        }
        Double { bits: r }
    }

    /// Divides by a number that is at least one.
    pub fn over(self, other: Double) -> (r: Double)
        requires
            self.bits < MODERATE,
            ONE <= other.bits < MODERATE,
        ensures
            r.bits == quotient(self.bits, other.bits),
            is_nearest(r.bits, units(self.bits) * unit_count(), units(other.bits)),
    {
        let ghost num = units(self.bits) * unit_count();
        let ghost den = units(other.bits);
        proof {
            lemma2_to64();
            lemma2_to64_rest();
            lemma_units_order(0, other.bits);
            assert(units(0) == 0 && units(1) == 1);
        }
        if self.bits == 0 {
            proof {
                assert(num == 0) by (nonlinear_arith)
                    requires
                        num == 0 * unit_count(),
                ;
                assert(units(0) * den == 0 && units((0 + 1) as u64) * den == den && (units(0)
                    + units((0 + 1) as u64)) * den == den) by (nonlinear_arith)
                    requires
                        units(0) == 0,
                        units((0 + 1) as u64) == 1,
                ;
                lemma_between(0, 0, den);
                lemma_nearest(0, num, den);
            }
            return Double { bits: 0 };
        }
        let (ma, ea) = split(self.bits);
        let (mb, eb) = split(other.bits);
        let len = bit_length(ma as u128);
        proof {
            if len > 53 {
                if len > 54 {
                    lemma_pow2_strictly_increases(53, (len - 1) as nat);
                }
                assert(false);
            }
        }
        let k: u32 = 118 - len;
        let p = power(k);
        proof {
            lemma_pow2_adds(len as nat, k as nat);
            lemma_pow2_adds((len - 1) as nat, k as nat);
            lemma_pow2_pos(k as nat);
            let low = pow2((len - 1) as nat);
            let high = pow2(len as nat);
            assert(ma * p < high * p) by (nonlinear_arith)
                requires
                    ma < high,
                    p > 0,
            ;
            assert(ma * p >= low * p) by (nonlinear_arith)
                requires
                    ma >= low,
                    p > 0,
            ;
            lemma_pow2_128();
            lemma_pow2_strictly_increases(118, 128);
        }
        let n: u128 = ma as u128 * p;
        let q: u128 = n / (mb as u128);
        let rem: u128 = n % (mb as u128);
        let s: i64 = ea as i64 + 1075 - eb as i64 - k as i64;
        proof {
            assert(n == q * mb + rem) by (nonlinear_arith)
                requires
                    mb > 0,
                    q == n as int / mb as int,
                    rem == n as int % mb as int,
            ;
            lemma_pow2_adds(64, 53);
            assert(q >= pow2(64)) by (nonlinear_arith)
                requires
                    n == q * mb + rem,
                    n >= pow2(64) * (2 * FRACTION),
                    rem < mb,
                    mb < 2 * FRACTION,
            ;
            lemma_quotient(
                ma as nat,
                ea as nat,
                mb as nat,
                eb as nat,
                k as nat,
                q as nat,
                rem as nat,
                num,
                den,
            );
        }
        let r = encode_at(q, s, rem != 0);
        proof {
            lemma_nearest(r, num, den);
        }
        Double { bits: r }
    }
}

impl Double {
    /// Multiplies two numbers.
    pub fn times(self, other: Double) -> (r: Double)
        requires
            self.bits < MODERATE,
            other.bits < MODERATE,
        ensures
            r.bits == product(self.bits, other.bits),
            is_nearest(r.bits, units(self.bits) * units(other.bits), unit_count()),
    {
        let ghost num = units(self.bits) * units(other.bits);
        let ghost den = unit_count();
        let (ma, ea) = split(self.bits);
        let (mb, eb) = split(other.bits);
        proof {
            lemma2_to64();
            lemma2_to64_rest();
            lemma_pow2_pos(1074);
        }
        if ma == 0 || mb == 0 {
            proof {
                assert(units(0) == 0 && units(1) == 1);
                let ua = units(self.bits);
                let ub = units(other.bits);
                assert(ua * ub == 0) by (nonlinear_arith)
                    requires
                        ua == 0 || ub == 0,
                ;
                assert(units(0) * den == 0 && units((0 + 1) as u64) * den == den && (units(0)
                    + units((0 + 1) as u64)) * den == den) by (nonlinear_arith)
                    requires
                        units(0) == 0,
                        units((0 + 1) as u64) == 1,
                ;
                lemma_between(0, 0, den);
                lemma_nearest(0, num, den);
            }
            return Double { bits: 0 };
        }
        proof {
            assert(0 < ma * mb < 0x400_0000_0000_0000_0000_0000_0000) by (nonlinear_arith)
                requires
                    0 < ma < 0x20_0000_0000_0000,
                    0 < mb < 0x20_0000_0000_0000,
            ;
            lemma_product(ma as nat, ea as nat, mb as nat, eb as nat, num);
        }
        let r = encode_at(ma as u128 * mb as u128, ea as i64 + eb as i64 - 1073, false);
        proof {
            lemma_nearest(r, num, den);
        }
        Double { bits: r }
    }

    /// The least integer that is not below the number.
    pub fn ceiling(self) -> (r: u128)
        requires
            self.bits < MODERATE,
        ensures
            r == ceiling_of(self.bits),
    {
        let (m, e) = split(self.bits);
        proof {
            lemma2_to64();
            lemma2_to64_rest();
            lemma_pow2_pos(1074);
        }
        if e >= 1074 {
            let k: u32 = e - 1074;
            let p = power(k);
            proof {
                if k < 48 {
                    lemma_pow2_strictly_increases(k as nat, 48);
                }
                assert(m * p <= 0x20_0000_0000_0000 * 0x1_0000_0000_0000) by (nonlinear_arith)
                    requires
                        m <= 0x20_0000_0000_0000,
                        0 <= p <= 0x1_0000_0000_0000,
                ;
                lemma_pow2_adds(k as nat, 1074);
                let u = unit_count();
                assert(m * (p * u) == (m * p) * u) by (nonlinear_arith);
                lemma_quotient_is((m * p) * u + u - 1, u as int, m * p, u - 1);
            }
            return m as u128 * p;
        }
        let n: u32 = 1074 - e;
        proof {
            lemma_pow2_adds(n as nat, e as nat);
            lemma_pow2_pos(e as nat);
            lemma_pow2_pos(n as nat);
        }
        if n >= 60 {
            proof {
                if n > 60 {
                    lemma_pow2_strictly_increases(60, n as nat);
                }
                lemma_ceiling(m as nat, pow2(n as nat), pow2(e as nat), 0, m as nat);
            }
            return if m > 0 {
                1
            } else {
                0
            };
        }
        let p = power(n);
        proof {
            lemma_pow2_strictly_increases(n as nat, 60);
        }
        let q: u128 = m as u128 / p;
        let rem: u128 = m as u128 % p;
        proof {
            assert(m == q * p + rem) by (nonlinear_arith)
                requires
                    p > 0,
                    q == m as int / p as int,
                    rem == m as int % p as int,
            ;
            lemma_ceiling(m as nat, p as nat, pow2(e as nat), q as nat, rem as nat);
        }
        if rem > 0 {
            q + 1
        } else {
            q
        }
    }

    /// The number times one hundred, rounded to an integer, halves upwards.
    pub fn percent(self) -> (r: usize)
        requires
            self.bits <= ONE,
        ensures
            r == percent_of(self.bits),
            r <= 100,
    {
        let hundred = Double { bits: HUNDRED };
        let x = self.times(hundred);
        let ghost u = unit_count();
        proof {
            lemma2_to64();
            lemma2_to64_rest();
            lemma_pow2_pos(1074);
            lemma_one();
            if self.bits < ONE {
                lemma_units_order(self.bits, ONE);
            }
            assert(units(self.bits) * units(HUNDRED) <= units(HUNDRED) * u) by (nonlinear_arith)
                requires
                    units(self.bits) <= u,
            ;
            lemma_nearest_at_most(
                x.bits,
                HUNDRED,
                units(self.bits) * units(HUNDRED),
                u,
            );
            lemma_hundred();
            if x.bits < HUNDRED {
                lemma_units_order(x.bits, HUNDRED);
            }
        }
        let (m, e) = split(x.bits);
        let n: u32 = 1074 - e;
        proof {
            lemma_pow2_adds(n as nat, e as nat);
            lemma_pow2_pos(e as nat);
            lemma_pow2_pos(n as nat);
            lemma_pow2_unfold(n as nat);
        }
        let (q, rem, half): (u128, u128, u128) = if n >= 60 {
            proof {
                if n > 60 {
                    lemma_pow2_strictly_increases(60, n as nat);
                }
            }
            (0, m as u128, 0x100_0000_0000_0000)
        } else {
            let p = power(n);
            proof {
                lemma_pow2_strictly_increases(n as nat, 60);
            }
            (m as u128 / p, m as u128 % p, p / 2)
        };
        proof {
            let p = pow2(n as nat);
            assert(m == q * p + rem && rem < p) by (nonlinear_arith)
                requires
                    p > 0,
                    n < 60 ==> q == m as int / p as int && rem == m as int % p as int,
                    n >= 60 ==> q == 0 && rem == m && m < p,
            ;
            lemma_round(m as nat, p, pow2(e as nat), q as nat, rem as nat);
            assert(rem >= half <==> 2 * rem >= p);
            lemma_percent_bound(units(x.bits), u);
        }
        if rem >= half {
            (q + 1) as usize
        } else {
            q as usize
        }
    }
}

/// The bits of the number one hundred.
pub const HUNDRED: u64 = 0x4059_0000_0000_0000;

/// The least integer that is not below the number.
pub open spec fn ceiling_of(b: u64) -> int {
    (units(b) + unit_count() - 1) / (unit_count() as int)
}

/// The integer nearest to the number, halves upwards.
pub open spec fn rounded(b: u64) -> int {
    (2 * units(b) + unit_count()) as int / (2 * unit_count()) as int
}

/// A share of one, as a percentage.
pub open spec fn percent_of(b: u64) -> int {
    rounded(product(b, HUNDRED))
}

/// Whether the bits are those of no number.
pub open spec fn is_nan(b: u64) -> bool {
    b % SIGN > INFINITY
}

/// The place of a number in the order of the numbers.
pub open spec fn rank(b: u64) -> int {
    if b < SIGN {
        b as int
    } else {
        SIGN - b
    }
}

/// Whether `a` and `b` are numbers and `a` is at least `b`.
pub open spec fn at_least(a: u64, b: u64) -> bool {
    !is_nan(a) && !is_nan(b) && rank(a) >= rank(b)
}

/// Whether `a` and `b` are numbers and `a` is greater than `b`.
pub open spec fn above(a: u64, b: u64) -> bool {
    !is_nan(a) && !is_nan(b) && rank(a) > rank(b)
}

/// The lesser of two numbers, or the one that is a number.
pub open spec fn lesser(a: u64, b: u64) -> u64 {
    if is_nan(a) || above(a, b) {
        b
    } else {
        a
    }
}

impl Double {
    fn nan(self) -> (r: bool)
        ensures
            r == is_nan(self.bits),
    {
        self.bits % SIGN > INFINITY
    }

    /// Whether this number is at least the other.
    pub fn ge(self, other: Double) -> (r: bool)
        ensures
            r == at_least(self.bits, other.bits),
    {
        if self.nan() || other.nan() {
            false
        } else if self.bits < SIGN {
            if other.bits < SIGN {
                self.bits >= other.bits
            } else {
                true
            }
        } else if other.bits < SIGN {
            self.bits == SIGN && other.bits == 0
        } else {
            self.bits <= other.bits
        }
    }

    /// Whether this number is greater than the other.
    pub fn gt(self, other: Double) -> (r: bool)
        ensures
            r == above(self.bits, other.bits),
    {
        !self.nan() && !other.nan() && !other.ge(self)
    }

    /// The lesser of two numbers, or the one that is a number.
    pub fn lesser_of(self, other: Double) -> (r: Double)
        ensures
            r.bits == lesser(self.bits, other.bits),
    {
        if self.nan() || self.gt(other) {
            other
        } else {
            self
        }
    }
}

/// No number below a bound of the exact result is nearest to it.
pub proof fn lemma_nearest_no_less(b: u64, c: u64, num: nat, den: nat)
    requires
        den > 0,
        is_nearest(b, num, den),
        c <= INFINITY,
        num >= units(c) * den,
    ensures
        b >= c,
{
    if b < c {
        lemma_units_order(b, c);
        lemma_scaled(units(b), units(c), den);
        assert(distance(b, num, den) > distance(c, num, den));
    }
}

/// The bits of `2^100`.
pub const TWO_100: u64 = 0x4630_0000_0000_0000;

/// `2^100`.
pub const LARGE: u128 = 0x10_0000_0000_0000_0000_0000_0000;

/// The bits of `2^60`.
pub const TWO_60: u64 = 0x43B0_0000_0000_0000;

proof fn lemma_two_100()
    ensures
        units(TWO_100) == LARGE * unit_count(),
{
    lemma2_to64();
    lemma2_to64_rest();
    assert(TWO_100 / FRACTION == 1123 && TWO_100 % FRACTION == 0);
    lemma_pow2_adds(50, 50);
    lemma_pow2_adds(52, 1122);
    lemma_pow2_adds(100, 1074);
    assert(pow2(100) == LARGE);
}

/// A positive integer up to `2^100` is nearest to a number from one to `2^100`.
pub proof fn lemma_whole_range(b: u64, n: nat)
    requires
        is_nearest(b, n * unit_count(), 1),
        1 <= n <= LARGE,
    ensures
        ONE <= b <= TWO_100,
{
    let u = unit_count();
    lemma_one();
    lemma_two_100();
    assert(1 * u <= n * u <= LARGE * u) by (nonlinear_arith)
        requires
            1 <= n <= LARGE,
    ;
    lemma_nearest_no_less(b, ONE, n * u, 1);
    lemma_nearest_at_most(b, TWO_100, n * u, 1);
}

/// The numbers nearest to two integers are in the order of the integers.
pub proof fn lemma_whole_order(a: u64, b: u64, m: nat, n: nat)
    requires
        is_nearest(a, m * unit_count(), 1),
        is_nearest(b, n * unit_count(), 1),
        m <= n,
    ensures
        a <= b,
{
    let u = unit_count();
    let x = m * u;
    let y = n * u;
    assert(x <= y) by (nonlinear_arith)
        requires
            m <= n,
            x == m * u,
            y == n * u,
    ;
    if a > b {
        lemma_units_order(b, a);
        assert(distance(a, x, 1) <= distance(b, x, 1));
        assert(distance(b, y, 1) <= distance(a, y, 1));
        if x == y {
            lemma_nearest_unique(a, b, x, 1);
        }
    }
}

/// A number that has exactly the value is the nearest one.
pub proof fn lemma_exact_is_nearest(b: u64, num: nat)
    requires
        b <= INFINITY,
        units(b) == num,
    ensures
        is_nearest(b, num, 1),
        nearest(num, 1) == b,
{
    assert forall|c: u64| c <= INFINITY && c != b implies #[trigger] distance(c, num, 1) > 0 by {
        if c < b {
            lemma_units_order(c, b);
        } else {
            lemma_units_order(b, c);
        }
    }
    assert(distance(b, num, 1) == 0);
    lemma_nearest(b, num, 1);
}

/// Some number has the value `n * 2^k` for a significand `n` of at most 53 bits.
proof fn lemma_representable(n: nat, k: nat) -> (b: u64)
    requires
        0 < n < 2 * FRACTION,
        53 <= k <= 2000,
    ensures
        b < INFINITY,
        units(b) == n * pow2(k),
{
    lemma2_to64();
    lemma_representable_scaled(n, k, 0)
}

proof fn lemma_representable_scaled(n: nat, k: nat, d: nat) -> (b: u64)
    requires
        0 < n < 2 * FRACTION,
        d <= 52,
        n >= pow2(d),
        53 <= k + d,
        k <= 2000,
    ensures
        b < INFINITY,
        units(b) == n * pow2(k),
    decreases 2 * FRACTION - n,
{
    lemma2_to64();
    lemma2_to64_rest();
    if n >= FRACTION {
        lemma_encoded(n as u64, k);
        (n + k * FRACTION) as u64
    } else {
        lemma_pow2_unfold(d + 1);
        if d == 52 {
            assert(false);
        }
        assert(k > 0);
        lemma_pow2_unfold(k);
        let w = pow2((k - 1) as nat);
        assert((2 * n) * w == n * (2 * w)) by (nonlinear_arith);
        lemma_representable_scaled(2 * n, (k - 1) as nat, d + 1)
    }
}

/// The bits of `2^53`.
pub const TWO_53: u64 = 0x4340_0000_0000_0000;

/// Integers up to `2^53` are numbers.
pub proof fn lemma_whole_exact(n: nat)
    requires
        n <= 2 * FRACTION,
    ensures
        whole(n) < INFINITY,
        units(whole(n)) == n * unit_count(),
{
    lemma2_to64();
    lemma2_to64_rest();
    let u = unit_count();
    if n == 0 {
        assert(units(0) == 0);
        assert(n * u == 0) by (nonlinear_arith)
            requires
                n == 0,
        ;
        lemma_exact_is_nearest(0, 0);
    } else if n == 2 * FRACTION {
        lemma_pow2_adds(1, 1074);
        let b = lemma_representable(FRACTION as nat, 1075);
        assert((2 * FRACTION) * u == FRACTION * (2 * u)) by (nonlinear_arith);
        lemma_exact_is_nearest(b, n * u);
    } else {
        let b = lemma_representable(n, 1074);
        lemma_exact_is_nearest(b, n * u);
    }
}

/// Adding one at most to a number that is at most `k` gives at most `k + 1`, or
/// stays at `2^53`.
pub proof fn lemma_sum_counted(r: u64, a: u64, b: u64, k: nat)
    requires
        a <= whole(least(k, 2 * FRACTION as nat)),
        b <= ONE,
        is_nearest(r, units(a) + units(b), 1),
    ensures
        r <= whole(least((k + 1) as nat, 2 * FRACTION as nat)),
{
    let u = unit_count();
    let m = least(k, 2 * FRACTION as nat);
    lemma_whole_exact(m);
    lemma_one();
    let w = whole(m);
    if a < w {
        lemma_units_order(a, w);
    }
    if b < ONE {
        lemma_units_order(b, ONE);
    }
    let num = units(a) + units(b);
    assert((m + 1) * u == m * u + u) by (nonlinear_arith);
    if k < 2 * FRACTION {
        lemma_whole_exact((k + 1) as nat);
        lemma_nearest_at_most(r, whole((k + 1) as nat), num, 1);
    } else {
        lemma_two_53();
        if num <= units(TWO_53) {
            lemma_nearest_at_most(r, TWO_53, num, 1);
        } else if r > TWO_53 {
            let next = (TWO_53 + 1) as u64;
            if r > next {
                lemma_units_order(next, r);
            }
            lemma_pow2_pos(1074);
            assert(distance(TWO_53, num, 1) <= u);
            assert(distance(r, num, 1) >= u);
            assert(distance(r, num, 1) == distance(TWO_53, num, 1));
            assert(units(r) == units(next));
            if r > next {
                lemma_units_order(next, r);
            }
            assert(r % 2 == 1);
            assert(TWO_53 != r);
            assert(false);
        }
    }
}

proof fn lemma_two_53()
    ensures
        units(TWO_53) == (2 * FRACTION) * unit_count(),
        units((TWO_53 + 1) as u64) == (2 * FRACTION) * unit_count() + 2 * unit_count(),
        whole(2 * FRACTION as nat) == TWO_53,
{
    lemma2_to64();
    lemma2_to64_rest();
    let u = unit_count();
    assert(TWO_53 / FRACTION == 1076 && TWO_53 % FRACTION == 0);
    let next = (TWO_53 + 1) as u64;
    assert(next / FRACTION == 1076 && next % FRACTION == 1);
    lemma_pow2_unfold(1075);
    let w = pow2(1075);
    assert(FRACTION * (2 * u) == (2 * FRACTION) * u) by (nonlinear_arith);
    assert((FRACTION + 1) * w == FRACTION * w + w) by (nonlinear_arith);
    lemma_exact_is_nearest(TWO_53, (2 * FRACTION as nat) * u);
}

/// The lesser of two integers.
pub open spec fn least(a: nat, b: nat) -> nat {
    if a <= b {
        a
    } else {
        b
    }
}

/// A number times one that is at most one is not greater than before.
pub proof fn lemma_product_bounded(r: u64, a: u64, b: u64)
    requires
        a <= INFINITY,
        b <= ONE,
        is_nearest(r, units(a) * units(b), unit_count()),
    ensures
        r <= a,
{
    let u = unit_count();
    lemma_pow2_pos(1074);
    lemma_one();
    if b < ONE {
        lemma_units_order(b, ONE);
    }
    let x = units(a);
    let y = units(b);
    assert(x * y <= x * u) by (nonlinear_arith)
        requires
            y <= u,
    ;
    lemma_nearest_at_most(r, a, x * y, u);
}

/// A number divided by one that is not less is at most one.
pub proof fn lemma_share(r: u64, a: u64, b: u64)
    requires
        a <= b <= INFINITY,
        b > 0,
        is_nearest(r, units(a) * unit_count(), units(b)),
    ensures
        r <= ONE,
{
    let u = unit_count();
    lemma_one();
    if a < b {
        lemma_units_order(a, b);
    }
    lemma_units_order(0, b);
    let x = units(a);
    let y = units(b);
    assert(x * u <= u * y) by (nonlinear_arith)
        requires
            x <= y,
    ;
    lemma_nearest_at_most(r, ONE, x * u, y);
}

/// Adding one at most never leads beyond `2^60`.
pub proof fn lemma_sum_bounded(r: u64, a: u64, b: u64)
    requires
        a <= TWO_60,
        b <= ONE,
        is_nearest(r, units(a) + units(b), 1),
    ensures
        r <= TWO_60,
{
    let u = unit_count();
    lemma2_to64();
    lemma2_to64_rest();
    lemma_pow2_pos(1074);
    lemma_one();
    assert(TWO_60 / FRACTION == 1083 && TWO_60 % FRACTION == 0);
    let next = (TWO_60 + 1) as u64;
    assert(next / FRACTION == 1083 && next % FRACTION == 1);
    lemma_pow2_adds(8, 1074);
    let w = pow2(1082);
    assert((FRACTION + 1) * w == FRACTION * w + w) by (nonlinear_arith);
    assert(units(next) == units(TWO_60) + 256 * u);
    if a < TWO_60 {
        lemma_units_order(a, TWO_60);
    }
    if b < ONE {
        lemma_units_order(b, ONE);
    }
    let num = units(a) + units(b);
    if r > TWO_60 {
        if r > next {
            lemma_units_order(next, r);
        }
        if num <= units(TWO_60) {
            lemma_nearest_at_most(r, TWO_60, num, 1);
        }
        assert(distance(TWO_60, num, 1) <= u);
        assert(distance(r, num, 1) >= 255 * u);
    }
}

/// One is as many units as there are in one.
pub proof fn lemma_one()
    ensures
        units(ONE) == unit_count(),
{
    lemma2_to64();
    lemma2_to64_rest();
    assert(ONE / FRACTION == 1023 && ONE % FRACTION == 0);
    lemma_pow2_adds(52, 1022);
}

proof fn lemma_hundred()
    ensures
        units(HUNDRED) == 100 * unit_count(),
{
    lemma2_to64();
    lemma2_to64_rest();
    assert(HUNDRED / FRACTION == 1029 && HUNDRED % FRACTION == 0x9_0000_0000_0000);
    lemma_pow2_adds(46, 1028);
    let w = pow2(1028);
    assert((0x19_0000_0000_0000) * w == 100 * (0x4000_0000_0000 * w)) by (nonlinear_arith);
}

proof fn lemma_quotient_is(x: int, d: int, q: int, r: int)
    requires
        x == q * d + r,
        0 <= r < d,
    ensures
        x / d == q,
{
    vstd::arithmetic::div_mod::lemma_fundamental_div_mod_converse(x, d, q, r);
}

proof fn lemma_ceiling(m: nat, p: nat, w: nat, q: nat, rem: nat)
    requires
        p > 0,
        w > 0,
        m == q * p + rem,
        rem < p,
    ensures
        (m * w + p * w - 1) / (p * w) as int == (if rem > 0 {
            (q + 1) as int
        } else {
            q as int
        }),
{
    let d = p * w;
    assert(d > 0) by (nonlinear_arith)
        requires
            p > 0,
            w > 0,
            d == p * w,
    ;
    assert(m * w == q * d + rem * w) by (nonlinear_arith)
        requires
            m == q * p + rem,
            d == p * w,
    ;
    assert(rem * w <= d - w) by (nonlinear_arith)
        requires
            rem <= p - 1,
            d == p * w,
            w > 0,
    ;
    if rem > 0 {
        assert(rem * w >= w) by (nonlinear_arith)
            requires
                rem >= 1,
                w > 0,
        ;
        assert((q + 1) * d == q * d + d) by (nonlinear_arith);
        lemma_quotient_is(m * w + d - 1, d as int, (q + 1) as int, rem * w - 1);
    } else {
        assert(rem * w == 0) by (nonlinear_arith)
            requires
                rem == 0,
        ;
        lemma_quotient_is(m * w + d - 1, d as int, q as int, d - 1);
    }
}

proof fn lemma_round(m: nat, p: nat, w: nat, q: nat, rem: nat)
    requires
        p > 0,
        w > 0,
        m == q * p + rem,
        rem < p,
    ensures
        (2 * (m * w) + p * w) as int / (2 * (p * w)) as int == (if 2 * rem >= p {
            (q + 1) as int
        } else {
            q as int
        }),
{
    let d = p * w;
    assert(d > 0) by (nonlinear_arith)
        requires
            p > 0,
            w > 0,
            d == p * w,
    ;
    assert(2 * (m * w) == q * (2 * d) + (2 * rem) * w) by (nonlinear_arith)
        requires
            m == q * p + rem,
            d == p * w,
    ;
    assert((2 * rem) * w < 2 * d) by (nonlinear_arith)
        requires
            rem < p,
            w > 0,
            d == p * w,
    ;
    if 2 * rem >= p {
        assert((2 * rem) * w >= d) by (nonlinear_arith)
            requires
                2 * rem >= p,
                w > 0,
                d == p * w,
        ;
        assert((q + 1) * (2 * d) == q * (2 * d) + 2 * d) by (nonlinear_arith);
        lemma_quotient_is(
            (2 * (m * w) + d) as int,
            (2 * d) as int,
            (q + 1) as int,
            (2 * rem) * w - d,
        );
    } else {
        assert((2 * rem) * w < d) by (nonlinear_arith)
            requires
                2 * rem < p,
                w > 0,
                d == p * w,
        ;
        lemma_quotient_is(
            (2 * (m * w) + d) as int,
            (2 * d) as int,
            q as int,
            ((2 * rem) * w + d) as int,
        );
    }
}

proof fn lemma_percent_bound(x: nat, u: nat)
    requires
        x <= 100 * u,
        u > 0,
    ensures
        0 <= (2 * x + u) as int / (2 * u) as int <= 100,
{
    let d = 2 * u as int;
    let y = 2 * x + u as int;
    let q = y / d;
    vstd::arithmetic::div_mod::lemma_fundamental_div_mod(y, d);
    assert(d * q <= y);
    assert(q <= 100) by (nonlinear_arith)
        requires
            d * q <= y,
            d > 0,
            y < 101 * d,
    ;
    vstd::arithmetic::div_mod::lemma_div_pos_is_pos(y, d);
}

/// What a product of the significands says of the exact product.
proof fn lemma_product(ma: nat, ea: nat, mb: nat, eb: nat, num: nat)
    requires
        num == (ma * pow2(ea)) * (mb * pow2(eb)),
    ensures
        truncates_at(ma * mb, ea + eb - 1073, false, num, unit_count()),
{
    let s = ea + eb - 1073;
    let q = ma * mb;
    let u = unit_count();
    let xa = pow2(ea);
    let xb = pow2(eb);
    lemma_pow2_pos(1074);
    lemma_pow2_adds(ea, eb);
    let x = pow2(ea + eb);
    assert(num == q * x) by (nonlinear_arith)
        requires
            num == (ma * xa) * (mb * xb),
            q == ma * mb,
            x == xa * xb,
    ;
    lemma_pow2_unfold(1074);
    let h = pow2(1073);
    lemma_pow2_pos(1073);
    if s >= 0 {
        let w = pow2(s as nat);
        lemma_pow2_pos(s as nat);
        lemma_pow2_adds(s as nat, 1073);
        assert(q * w * u == 2 * (q * x)) by (nonlinear_arith)
            requires
                x == w * h,
                u == 2 * h,
        ;
        assert((q + 1) * w * u > q * w * u) by (nonlinear_arith)
            requires
                w > 0,
                u > 0,
        ;
    } else {
        let w = pow2((-s) as nat);
        lemma_pow2_adds(ea + eb, (-s) as nat);
        assert(2 * num * w == q * u) by (nonlinear_arith)
            requires
                num == q * x,
                x * w == h,
                u == 2 * h,
        ;
        assert((q + 1) * u > q * u) by (nonlinear_arith)
            requires
                u > 0,
        ;
    }
}

/// What a division of the significands says of the exact quotient.
proof fn lemma_quotient(
    ma: nat,
    ea: nat,
    mb: nat,
    eb: nat,
    k: nat,
    q: nat,
    rem: nat,
    num: nat,
    den: nat,
)
    requires
        num == (ma * pow2(ea)) * unit_count(),
        den == mb * pow2(eb),
        den > 0,
        ma * pow2(k) == q * mb + rem,
        rem < mb,
    ensures
        truncates_at(q, ea + 1075 - eb - k, rem != 0, num, den),
{
    let s = ea + 1075 - eb - k;
    let xa = pow2(ea);
    let xb = pow2(eb);
    let xk = pow2(k);
    let u = unit_count();
    lemma_pow2_pos(ea);
    lemma_pow2_pos(eb);
    lemma_pow2_pos(k);
    lemma_pow2_unfold(1075);
    lemma_pow2_adds(ea, 1075);
    // Both sides of each comparison, times 2^k, are multiples of 2^(ea + 1075).
    let top = pow2(ea + 1075);
    assert(top == xa * (2 * u));
    assert(2 * num == ma * top) by (nonlinear_arith)
        requires
            num == (ma * xa) * u,
            top == xa * (2 * u),
    ;
    assert((2 * num) * xk == (q * mb + rem) * top) by (nonlinear_arith)
        requires
            2 * num == ma * top,
            ma * xk == q * mb + rem,
    ;
    lemma_pow2_pos(ea + 1075);
    assert((q * mb) * top <= (q * mb + rem) * top < ((q + 1) * mb) * top) by (nonlinear_arith)
        requires
            0 <= rem < mb,
            top > 0,
    ;
    assert((q * mb + rem) * top == (q * mb) * top <==> rem == 0) by (nonlinear_arith)
        requires
            rem >= 0,
            top > 0,
    ;
    if s >= 0 {
        let w = pow2(s as nat);
        lemma_pow2_pos(s as nat);
        // 2^(ea + 1075) == 2^s * 2^eb * 2^k
        lemma_pow2_adds(s as nat, eb);
        lemma_pow2_adds(s as nat + eb, k);
        assert(top == (w * xb) * xk);
        lemma_rescale(q, mb, w, xb, xk, top, 2 * num, den);
        lemma_rescale(q + 1, mb, w, xb, xk, top, 2 * num, den);
    } else {
        let w = pow2((-s) as nat);
        lemma_pow2_pos((-s) as nat);
        // 2^(ea + 1075) * 2^(-s) == 2^eb * 2^k
        lemma_pow2_adds(ea + 1075, (-s) as nat);
        lemma_pow2_adds(eb, k);
        assert(top * w == xb * xk);
        lemma_rescale_below(q, mb, w, xb, xk, top, 2 * num, den);
        lemma_rescale_below(q + 1, mb, w, xb, xk, top, 2 * num, den);
    }
}

proof fn lemma_rescale(
    q: nat,
    mb: nat,
    w: nat,
    xb: nat,
    xk: nat,
    top: nat,
    num2: nat,
    den: nat,
)
    requires
        top == (w * xb) * xk,
        den == mb * xb,
        xk > 0,
    ensures
        (q * w * den) * xk == (q * mb) * top,
        q * w * den <= num2 <==> (q * mb) * top <= num2 * xk,
        q * w * den == num2 <==> (q * mb) * top == num2 * xk,
{
    assert((q * w * den) * xk == (q * mb) * top) by (nonlinear_arith)
        requires
            top == (w * xb) * xk,
            den == mb * xb,
    ;
    let a = q * w * den;
    assert(a <= num2 <==> a * xk <= num2 * xk) by (nonlinear_arith)
        requires
            xk > 0,
    ;
    assert(a == num2 <==> a * xk == num2 * xk) by (nonlinear_arith)
        requires
            xk > 0,
    ;
}

proof fn lemma_rescale_below(
    q: nat,
    mb: nat,
    w: nat,
    xb: nat,
    xk: nat,
    top: nat,
    num2: nat,
    den: nat,
)
    requires
        top * w == xb * xk,
        den == mb * xb,
        xk > 0,
        w > 0,
    ensures
        q * den <= num2 * w <==> (q * mb) * top <= num2 * xk,
        q * den == num2 * w <==> (q * mb) * top == num2 * xk,
{
    // Both comparisons, times 2^k and times w.
    let a = q * den;
    let b = (q * mb) * top;
    assert(a * xk == b * w) by (nonlinear_arith)
        requires
            a == q * (mb * xb),
            b == (q * mb) * top,
            top * w == xb * xk,
    ;
    assert((num2 * w) * xk == (num2 * xk) * w) by (nonlinear_arith);
    let c = num2 * w;
    let d = num2 * xk;
    assert(a <= c <==> a * xk <= c * xk) by (nonlinear_arith)
        requires
            xk > 0,
    ;
    assert(a == c <==> a * xk == c * xk) by (nonlinear_arith)
        requires
            xk > 0,
    ;
    assert(b <= d <==> b * w <= d * w) by (nonlinear_arith)
        requires
            w > 0,
    ;
    assert(b == d <==> b * w == d * w) by (nonlinear_arith)
        requires
            w > 0,
    ;
}

/// Where the exact result lies among the numbers from `b` on, there is a nearest
/// one.
proof fn lemma_nearest_from(b: u64, num: nat, den: nat)
    requires
        den > 0,
        b <= INFINITY,
        units(b) * den <= num,
    ensures
        exists|c: u64| is_nearest(c, num, den),
    decreases INFINITY - b,
{
    if b == INFINITY {
        assert forall|x: u64| x <= INFINITY && x != b implies #[trigger] distance(x, num, den)
            > distance(b, num, den) by {
            lemma_units_order(x, b);
            lemma_scaled(units(x), units(b), den);
        }
        assert(is_nearest(b, num, den));
    } else {
        let c = (b + 1) as u64;
        if num < units(c) * den {
            lemma_between(b, num, den);
            assert(is_nearest(b, num, den) || is_nearest(c, num, den));
        } else {
            lemma_nearest_from(c, num, den);
        }
    }
}

/// There is a number that is nearest to any exact result.
pub proof fn law_nearest(num: nat, den: nat)
    requires
        den > 0,
    ensures
        is_nearest(nearest(num, den), num, den),
{
    assert(units(0) == 0);
    assert(units(0) * den == 0) by (nonlinear_arith)
        requires
            units(0) == 0,
    ;
    lemma_nearest_from(0, num, den);
}

/// A positive integer is not rounded to nothing.
pub proof fn lemma_whole_positive(n: nat)
    requires
        n > 0,
    ensures
        0 < whole(n) <= INFINITY,
        units(whole(n)) > 0,
{
    let u = unit_count();
    lemma_one();
    assert(units(0) == 0);
    law_nearest(n * u, 1);
    lemma_units_order(0, ONE);
    assert(n * u >= u) by (nonlinear_arith)
        requires
            n > 0,
    ;
    if whole(n) == 0 {
        assert(distance(ONE, n * u, 1) < distance(0, n * u, 1));
    }
    lemma_units_order(0, whole(n));
}

/// Nothing, divided by any positive integer, is nothing.
pub proof fn lemma_zero_share(n: nat)
    requires
        n > 0,
    ensures
        quotient(whole(0), whole(n)) == 0,
{
    let u = unit_count();
    lemma_one();
    assert(0 * u == 0);
    assert(units(0) == 0);
    lemma_exact_is_nearest(0, 0);
    assert(whole(0) == 0);
    lemma_whole_positive(n);
    let d = units(whole(n));
    assert forall|c: u64| c <= INFINITY && c != 0 implies #[trigger] distance(c, 0, d) > 0 by {
        lemma_units_order(0, c);
        lemma_scaled(0, units(c), d);
    }
    assert(distance(0, 0, d) == 0);
    assert(is_nearest(0, 0, d));
    lemma_nearest(0, 0, d);
    assert(units(whole(0)) * u == 0);
}

/// A positive number in relation to itself is one.
pub proof fn lemma_whole_share(w: u64)
    requires
        w <= INFINITY,
        units(w) > 0,
    ensures
        quotient(w, w) == ONE,
{
    let u = unit_count();
    let d = units(w);
    lemma_one();
    assert(units(ONE) * d == d * u) by (nonlinear_arith)
        requires
            units(ONE) == u,
    ;
    assert(distance(ONE, d * u, d) == 0);
    assert forall|c: u64| c <= INFINITY && c != ONE implies #[trigger] distance(c, d * u, d)
        > 0 by {
        if c < ONE {
            lemma_units_order(c, ONE);
            lemma_scaled(units(c), units(ONE), d);
        } else {
            lemma_units_order(ONE, c);
            lemma_scaled(units(ONE), units(c), d);
        }
    }
    assert(is_nearest(ONE, d * u, d));
    lemma_nearest(ONE, d * u, d);
}

/// One more than an integer that is written exactly is the next one.
pub proof fn lemma_whole_next(n: nat)
    requires
        n <= 2 * FRACTION,
    ensures
        sum(whole(n), ONE) == whole(n + 1),
{
    let u = unit_count();
    lemma_one();
    lemma_whole_exact(n);
    assert(n * u + u == (n + 1) * u) by (nonlinear_arith);
}

} // verus!
