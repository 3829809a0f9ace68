//! Arithmetic of non-negative numbers in the precision of a binary64 floating-point
//! number, done on integers: every result is the exact result rounded to a
//! significand of 53 bits, a tie going to the even significand.
//!
//! The numbers of this library stay far from the ends of the binary64 range, so
//! exponents are not bounded and there are no subnormal numbers.
use crate::decimal::{append_fixed_point, fixed_point, lemma_pow10_positive, pow10};
use vstd::arithmetic::power2::{
    lemma2_to64, lemma_pow2_adds, lemma_pow2_pos, lemma_pow2_strictly_increases,
    lemma_pow2_unfold, pow2,
};
use vstd::prelude::*;
use vstd::string::StringExecFns;

verus! {

/// The number `m * 2^e`.
pub struct Dyadic {
    pub m: nat,
    pub e: int,
}

/// `n / d` rounded to a whole number, a tie going to the even one.
pub open spec fn round_half_even(n: nat, d: nat) -> nat
    recommends
        d > 0,
{
    let q = n / d;
    let r = n % d;
    if 2 * r < d || (2 * r == d && q % 2 == 0) {
        q
    } else {
        q + 1
    }
}

/// `2^k <= n / d < 2^(k + 1)`.
pub open spec fn in_binade(n: nat, d: nat, k: int) -> bool {
    if k >= 0 {
        d * pow2(k as nat) <= n < d * pow2((k + 1) as nat)
    } else {
        d <= n * pow2((-k) as nat) < 2 * d
    }
}

/// The `k` with `2^k <= n / d < 2^(k + 1)`.
pub open spec fn binade(n: nat, d: nat) -> int {
    choose|k: int| in_binade(n, d, k)
}

/// `n / d / 2^k` rounded to a whole number, a tie going to the even one.
pub open spec fn significand(n: nat, d: nat, k: int) -> nat {
    if k >= 0 {
        round_half_even(n, d * pow2(k as nat))
    } else {
        round_half_even(n * pow2((-k) as nat), d)
    }
}

/// `(n / d) * 2^scale` rounded to 53 significant bits.
pub open spec fn rounded(n: nat, d: nat, scale: int) -> Dyadic
    recommends
        d > 0,
{
    if n == 0 {
        Dyadic { m: 0, e: 0 }
    } else {
        let k = binade(n, d) - 52;
        let m = significand(n, d, k);
        if m == pow2(53) {
            Dyadic { m: pow2(52), e: k + scale + 1 }
        } else {
            Dyadic { m, e: k + scale }
        }
    }
}

/// The number nearest to `n`.
pub open spec fn of_nat(n: nat) -> Dyadic {
    rounded(n, 1, 0)
}

/// The number nearest to `a / b`.
pub open spec fn quotient(a: Dyadic, b: Dyadic) -> Dyadic {
    rounded(a.m, b.m, a.e - b.e)
}

/// The number nearest to `a * k`.
pub open spec fn product(a: Dyadic, k: nat) -> Dyadic {
    rounded(a.m * k, 1, a.e)
}

/// The number nearest to `a + b`.
pub open spec fn total(a: Dyadic, b: Dyadic) -> Dyadic {
    let e = if a.e < b.e { a.e } else { b.e };
    rounded(a.m * pow2((a.e - e) as nat) + b.m * pow2((b.e - e) as nat), 1, e)
}

/// `a < n`.
pub open spec fn below(a: Dyadic, n: nat) -> bool {
    if a.e >= 0 {
        a.m * pow2(a.e as nat) < n
    } else {
        a.m < n * pow2((-a.e) as nat)
    }
}

/// The greatest whole number that is at most `a`.
pub open spec fn whole_part(a: Dyadic) -> nat {
    if a.e >= 0 {
        a.m * pow2(a.e as nat)
    } else {
        a.m / pow2((-a.e) as nat)
    }
}

/// `ns` nanoseconds in seconds.
pub open spec fn seconds_of(ns: nat) -> Dyadic {
    total(
        of_nat(ns / 1_000_000_000),
        quotient(of_nat(ns % 1_000_000_000), of_nat(1_000_000_000)),
    )
}

/// `n`, or the greatest `u64` where `n` is greater than that.
pub open spec fn saturated(n: nat) -> u64 {
    if n > u64::MAX {
        u64::MAX
    } else {
        n as u64
    }
}

/// `a * 10^places` rounded to a whole number, a tie going to the even one.
pub open spec fn decimal_scaled(a: Dyadic, places: nat) -> nat {
    if a.e >= 0 {
        a.m * pow10(places) * pow2(a.e as nat)
    } else {
        round_half_even(a.m * pow10(places), pow2((-a.e) as nat))
    }
}

/// `a` written with `places` digits behind the decimal point.
pub open spec fn fixed_text(a: Dyadic, places: nat) -> Seq<char> {
    fixed_point(decimal_scaled(a, places), places)
}

/// Where `a` stands between two decimal numbers of `places` places: what `a` exceeds
/// the lower one by, in units of `10^(-places) * 2^a.e`.
pub open spec fn excess(a: Dyadic, places: nat) -> nat {
    (a.m * pow10(places)) % pow2((-a.e) as nat)
}

/// The greatest decimal number of `places` places that is at most `a` rounds to `a`:
/// it is no further below `a` than half the distance to the next lower number of 53
/// significant bits. At exactly half the distance it rounds to the even significand.
pub open spec fn floor_stands_for(a: Dyadic, places: nat) -> bool {
    let gap = if a.m == pow2(52) {
        pow10(places)
    } else {
        2 * pow10(places)
    };
    if a.m % 2 == 0 {
        4 * excess(a, places) <= gap
    } else {
        4 * excess(a, places) < gap
    }
}

/// The least decimal number of `places` places that is greater than `a` rounds to `a`.
pub open spec fn ceil_stands_for(a: Dyadic, places: nat) -> bool {
    let miss = pow2((-a.e) as nat) - excess(a, places);
    if a.m % 2 == 0 {
        4 * miss <= 2 * pow10(places)
    } else {
        4 * miss < 2 * pow10(places)
    }
}

/// Some decimal number of `places` places rounds to `a`.
pub open spec fn enough_places(a: Dyadic, places: nat) -> bool {
    floor_stands_for(a, places) || ceil_stands_for(a, places)
}

/// The least number of decimal places with which a decimal number rounds to `a`.
pub open spec fn fewest_places(a: Dyadic) -> nat {
    choose|places: nat| is_fewest_places(a, places)
}

pub open spec fn is_fewest_places(a: Dyadic, places: nat) -> bool {
    enough_places(a, places) && forall|i: nat| i < places ==> !enough_places(a, i)
}

/// Of the decimal numbers of `places` places that round to `a`, the nearest to `a`,
/// times `10^places`; the greater one where two are equally near.
pub open spec fn nearest_short(a: Dyadic, places: nat) -> nat {
    let unit = pow2((-a.e) as nat);
    let lower = (a.m * pow10(places)) / unit;
    if ceil_stands_for(a, places) && (!floor_stands_for(a, places) || 2 * excess(a, places)
        >= unit) {
        lower + 1
    } else {
        lower
    }
}

/// `a`, which is zero or has a negative exponent, written with as few decimal places
/// as tell it from every other number of 53 significant bits.
pub open spec fn shortest_text(a: Dyadic) -> Seq<char> {
    if a.m == 0 {
        "0"@
    } else {
        fixed_point(nearest_short(a, fewest_places(a)), fewest_places(a))
    }
}

/// What `fewest_places` names, once one value is known.
pub proof fn lemma_fewest_places(a: Dyadic, places: nat)
    requires
        is_fewest_places(a, places),
    ensures
        fewest_places(a) == places,
{
    let other = fewest_places(a);
    assert(is_fewest_places(a, other));
    if other < places {
        assert(!enough_places(a, other));
    } else if places < other {
        assert(!enough_places(a, places));
    }
}

proof fn lemma_pow10_at_least(k: nat)
    ensures
        pow10(k) >= pow2(k),
    decreases k,
{
    if k == 0 {
        lemma2_to64();
    } else {
        lemma_pow10_at_least((k - 1) as nat);
        lemma_pow2_unfold(k);
    }
}

proof fn lemma_next_digit(n: nat, u: nat)
    requires
        u > 0,
    ensures
        (10 * n) / u == 10 * (n / u) + (10 * (n % u)) / u,
        (10 * n) % u == (10 * (n % u)) % u,
{
    let q = n / u;
    let r = n % u;
    vstd::arithmetic::div_mod::lemma_fundamental_div_mod(n as int, u as int);
    assert(10 * n == u * (10 * q) + 10 * r) by (nonlinear_arith)
        requires
            n == u * q + r,
    ;
    vstd::arithmetic::div_mod::lemma_hoist_over_denominator((10 * r) as int, (10 * q) as int, u);
    vstd::arithmetic::div_mod::lemma_mod_multiples_vanish((10 * q) as int, (10 * r) as int, u as int);
}

proof fn lemma_div_bound(n: nat, u: nat, m: nat, st: nat)
    requires
        u > 0,
        n == m * st,
        st <= 40 * u,
    ensures
        n / u <= 40 * m,
{
    vstd::arithmetic::div_mod::lemma_fundamental_div_mod(n as int, u as int);
    vstd::arithmetic::div_mod::lemma_mod_bound(n as int, u as int);
    let q = n / u;
    let r = n % u;
    assert(q <= 40 * m) by (nonlinear_arith)
        requires
            u > 0,
            n == u * q + r,
            r >= 0,
            n == m * st,
            st <= 40 * u,
    ;
}

/// A quotient lies between two consecutive powers of two in one way only.
pub proof fn lemma_binade_unique(n: nat, d: nat, j: int, k: int)
    requires
        d > 0,
        in_binade(n, d, j),
        in_binade(n, d, k),
    ensures
        j == k,
{
    if j < k {
        lemma_binade_disjoint(n, d, j, k);
    } else if k < j {
        lemma_binade_disjoint(n, d, k, j);
    }
}

proof fn lemma_binade_disjoint(n: nat, d: nat, j: int, k: int)
    requires
        d > 0,
        j < k,
        in_binade(n, d, j),
    ensures
        !in_binade(n, d, k),
{
    if j >= 0 {
        if j + 1 < k {
            lemma_pow2_strictly_increases((j + 1) as nat, k as nat);
        }
        let a = pow2((j + 1) as nat);
        let b = pow2(k as nat);
        assert(d * a <= d * b) by (nonlinear_arith)
            requires
                a <= b,
        ;
    } else if k >= 0 {
        let a = pow2((-j) as nat);
        let b = pow2(k as nat);
        lemma_pow2_unfold((-j) as nat);
        lemma_pow2_pos((-j - 1) as nat);
        lemma_pow2_pos(k as nat);
        assert(n * a < 2 * d ==> d * b > n) by (nonlinear_arith)
            requires
                a >= 2,
                b >= 1,
        ;
    } else {
        let a = pow2((-j) as nat);
        let b = pow2((-k) as nat);
        lemma_pow2_unfold((-j) as nat);
        if -k < -j - 1 {
            lemma_pow2_strictly_increases((-k) as nat, (-j - 1) as nat);
        }
        assert(n * a < 2 * d ==> d > n * b) by (nonlinear_arith)
            requires
                a >= 2 * b,
        ;
    }
}

/// What `binade` names, once one value is known.
pub proof fn lemma_binade(n: nat, d: nat, k: int)
    requires
        d > 0,
        in_binade(n, d, k),
    ensures
        binade(n, d) == k,
{
    lemma_binade_unique(n, d, k, binade(n, d));
}

/// A binade lies where the quotient does.
proof fn lemma_binade_bounds(n: nat, d: nat, lo: nat, hi: nat, k: int)
    requires
        d > 0,
        d * pow2(lo) <= n < d * pow2(hi),
        in_binade(n, d, k),
    ensures
        lo <= k < hi,
{
    let l = pow2(lo);
    let h = pow2(hi);
    lemma_pow2_pos(lo);
    if k < 0 {
        let p = pow2((-k) as nat);
        lemma_pow2_unfold((-k) as nat);
        lemma_pow2_pos((-k - 1) as nat);
        assert(n * p >= 2 * d) by (nonlinear_arith)
            requires
                p >= 2,
                l >= 1,
                d * l <= n,
        ;
    } else {
        let a = pow2(k as nat);
        let b = pow2((k + 1) as nat);
        if k >= hi {
            if k > hi {
                lemma_pow2_strictly_increases(hi, k as nat);
            }
            assert(d * h <= d * a) by (nonlinear_arith)
                requires
                    h <= a,
            ;
        }
        if k < lo {
            if k + 1 < lo {
                lemma_pow2_strictly_increases((k + 1) as nat, lo);
            }
            assert(d * b <= d * l) by (nonlinear_arith)
                requires
                    b <= l,
            ;
        }
    }
}

/// A whole number of 53 bits comes out of a quotient between `2^52` and `2^53`.
proof fn lemma_round_half_even_range(n: nat, d: nat)
    requires
        d > 0,
        d * pow2(52) <= n < d * pow2(53),
    ensures
        pow2(52) <= round_half_even(n, d) <= pow2(53),
{
    let lo = pow2(52);
    let hi = pow2(53);
    let q = n / d;
    vstd::arithmetic::div_mod::lemma_fundamental_div_mod(n as int, d as int);
    vstd::arithmetic::div_mod::lemma_mod_bound(n as int, d as int);
    let r = n % d;
    assert(lo <= q < hi) by (nonlinear_arith)
        requires
            d > 0,
            n == d * q + r,
            0 <= r < d,
            d * lo <= n < d * hi,
    ;
}

/// Scaling by `2^(52 - k)` brings a quotient of binade `k` between `2^52` and `2^53`.
proof fn lemma_scaled(n: nat, d: nat, k: int)
    requires
        d > 0,
        in_binade(n, d, k),
    ensures
        k >= 52 ==> d * pow2((k - 52) as nat) * pow2(52) <= n < d * pow2((k - 52) as nat) * pow2(53),
        k < 52 ==> d * pow2(52) <= n * pow2((52 - k) as nat) < d * pow2(53),
{
    lemma_pow2_pos(52);
    lemma_pow2_unfold(53);
    if k >= 52 {
        let a = pow2((k - 52) as nat);
        lemma_pow2_adds((k - 52) as nat, 52);
        lemma_pow2_adds((k - 52) as nat, 53);
        let b = pow2(52);
        let c = pow2(53);
        assert(d * (a * b) == d * a * b) by (nonlinear_arith);
        assert(d * (a * c) == d * a * c) by (nonlinear_arith);
    } else if k >= 0 {
        let a = pow2((52 - k) as nat);
        let b = pow2(k as nat);
        lemma_pow2_adds(k as nat, (52 - k) as nat);
        lemma_pow2_adds((k + 1) as nat, (52 - k) as nat);
        lemma_pow2_pos((52 - k) as nat);
        let c = pow2((k + 1) as nat);
        assert(d * (b * a) <= n * a) by (nonlinear_arith)
            requires
                d * b <= n,
        ;
        assert(n * a < d * (c * a)) by (nonlinear_arith)
            requires
                n < d * c,
                a > 0,
        ;
    } else {
        let a = pow2((-k) as nat);
        let b = pow2(52);
        lemma_pow2_adds((-k) as nat, 52);
        assert(d * b <= n * (a * b)) by (nonlinear_arith)
            requires
                d <= n * a,
        ;
        assert(n * (a * b) < d * (2 * b)) by (nonlinear_arith)
            requires
                n * a < 2 * d,
                b > 0,
        ;
    }
}

/// The exponent of a rounded quotient, from bounds on the quotient.
pub proof fn lemma_rounded_exponent(n: nat, d: nat, scale: int, k: int)
    requires
        d > 0,
        in_binade(n, d, k),
    ensures
        rounded(n, d, scale).e == k - 52 + scale || rounded(n, d, scale).e == k - 51 + scale,
        pow2(52) <= rounded(n, d, scale).m < pow2(53),
{
    lemma_binade(n, d, k);
    lemma_scaled(n, d, k);
    lemma_pow2_strictly_increases(52, 53);
    if n == 0 {
        lemma_pow2_pos(k as nat);
        let p = pow2(k as nat);
        if k >= 0 {
            assert(d * p > 0) by (nonlinear_arith)
                requires
                    d > 0,
                    p > 0,
            ;
        }
    } else if k >= 52 {
        let a = pow2((k - 52) as nat);
        lemma_pow2_pos((k - 52) as nat);
        assert(d * a > 0) by (nonlinear_arith)
            requires
                d > 0,
                a > 0,
        ;
        lemma_round_half_even_range(n, d * a);
    } else {
        lemma_round_half_even_range(n * pow2((52 - k) as nat), d);
    }
}

proof fn lemma_binade_exists(n: nat) -> (k: nat)
    requires
        n > 0,
    ensures
        in_binade(n, 1, k as int),
    decreases n,
{
    lemma2_to64();
    if n == 1 {
        0
    } else {
        let j = lemma_binade_exists(n / 2);
        lemma_pow2_unfold(j + 1);
        lemma_pow2_unfold(j + 2);
        j + 1
    }
}

/// The exponent of a whole number, from bounds on it.
proof fn lemma_of_nat_exponent(n: nat, lo: nat, hi: nat)
    requires
        0 < n,
        pow2(lo) <= n < pow2(hi),
    ensures
        lo - 52 <= of_nat(n).e <= hi - 52,
{
    let k = lemma_binade_exists(n);
    lemma_binade_bounds(n, 1, lo, hi, k as int);
    lemma_rounded_exponent(n, 1, 0, k as int);
}

/// The exponent of a thousand million.
pub proof fn lemma_billion_exponent()
    ensures
        -23 <= of_nat(1_000_000_000).e <= -22,
{
    lemma2_to64();
    lemma_of_nat_exponent(1_000_000_000, 29, 30);
}

/// A non-negative number of 53 significant bits.
#[derive(Clone, Copy, Debug, PartialEq, Eq)]
pub struct Binary64 {
    pub mantissa: u64,
    pub exponent: i32,
}

impl View for Binary64 {
    type V = Dyadic;

    open spec fn view(&self) -> Dyadic {
        Dyadic { m: self.mantissa as nat, e: self.exponent as int }
    }
}

/// Zero, or a significand that starts with a one.
pub open spec fn normalized(x: Dyadic) -> bool {
    ||| x.m == 0 && x.e == 0
    ||| pow2(52) <= x.m < pow2(53)
}

fn exact_pow2(k: u32) -> (p: u128)
    requires
        k < 128,
    ensures
        p as nat == pow2(k as nat),
    decreases k,
{
    if k == 0 {
        proof {
            lemma2_to64();
        }
        1
    } else {
        let half: u128 = exact_pow2(k - 1);
        proof {
            lemma_pow2_unfold(k as nat);
            lemma_pow2_127();
            if k < 127 {
                lemma_pow2_strictly_increases(k as nat, 127);
            }
        }
        2 * half
    }
}

proof fn lemma_pow2_127()
    ensures
        pow2(127) == 0x8000_0000_0000_0000_0000_0000_0000_0000,
        pow2(74) == 0x400_0000_0000_0000_0000,
        pow2(64) == 0x1_0000_0000_0000_0000,
        pow2(63) == 0x8000_0000_0000_0000,
        pow2(53) == 0x20_0000_0000_0000,
        pow2(52) == 0x10_0000_0000_0000,
{
    lemma2_to64();
    vstd::arithmetic::power2::lemma2_to64_rest();
    lemma_pow2_adds(64, 63);
    lemma_pow2_adds(64, 10);
}

proof fn lemma_pow2_at_least(a: nat, b: nat)
    requires
        a >= b,
    ensures
        pow2(a) >= pow2(b),
        pow2(12) == 0x1000,
        pow2(53) == 0x20_0000_0000_0000,
{
    lemma2_to64();
    vstd::arithmetic::power2::lemma2_to64_rest();
    if a > b {
        lemma_pow2_strictly_increases(b, a);
    }
}

proof fn lemma_pow2_70(k: int)
    requires
        0 <= k <= 70,
    ensures
        1 <= pow2(k as nat) <= 0x40_0000_0000_0000_0000,
{
    lemma2_to64();
    lemma_pow2_adds(64, 6);
    lemma_pow2_pos(k as nat);
    lemma_pow2_127();
    lemma_pow2_at_least(70, k as nat);
}

/// Bounds of a significand that is moved up by `i` bits, `i` being at most `top`.
proof fn lemma_shifted(m: nat, i: nat, top: nat)
    requires
        m < pow2(53),
        i <= top,
    ensures
        m >= pow2(52) ==> m * pow2(i) >= pow2(52 + i),
        m * pow2(i) < pow2(53 + top),
{
    let p = pow2(i);
    let a = pow2(52);
    let b = pow2(53);
    lemma_pow2_adds(52, i);
    lemma_pow2_adds(53, i);
    lemma_pow2_pos(i);
    lemma_pow2_at_least(53 + top, 53 + i);
    assert(m * p < b * p) by (nonlinear_arith)
        requires
            m < b,
            p > 0,
    ;
    if m >= a {
        assert(m * p >= a * p) by (nonlinear_arith)
            requires
                m >= a,
        ;
    }
}

fn exact_round_half_even(n: u128, d: u128) -> (m: u128)
    requires
        d > 0,
    ensures
        m as nat == round_half_even(n as nat, d as nat),
{
    let q: u128 = n / d;
    let r: u128 = n % d;
    if r < d - r || (r == d - r && q % 2 == 0) {
        q
    } else {
        proof {
            let qq = q as int;
            let dd = d as int;
            vstd::arithmetic::div_mod::lemma_fundamental_div_mod(n as int, d as int);
            assert(qq <= dd * qq) by (nonlinear_arith)
                requires
                    dd >= 1,
                    qq >= 0,
            ;
        }
        q + 1
    }
}

/// The binade of `n / d`.
fn exact_binade(n: u128, d: u128) -> (k: i32)
    requires
        n > 0,
        0 < d < pow2(74),
    ensures
        in_binade(n as nat, d as nat, k as int),
        -74 <= k < 128,
{
    let mut k: i32 = 0;
    proof {
        lemma_pow2_127();
        lemma2_to64();
        let one = pow2(0) as int;
        assert(n * one == n && d * one == d) by (nonlinear_arith)
            requires
                one == 1,
        ;
    }
    if n < d {
        let mut up: u128 = n;
        while up < d
            invariant
                n > 0,
                d < pow2(74),
                pow2(74) == 0x400_0000_0000_0000_0000,
                -74 <= k <= 0,
                up == n * pow2((-k) as nat),
                up < 2 * d,
                k == 0 ==> up < d,
            decreases 2 * d - up,
        {
            proof {
                lemma_pow2_unfold((-k + 1) as nat);
                lemma_pow2_pos((-k) as nat);
                let p = pow2((-k) as nat) as int;
                let nn = n as int;
                assert(nn * (2 * p) == 2 * (nn * p)) by (nonlinear_arith);
                assert(p <= nn * p) by (nonlinear_arith)
                    requires
                        nn >= 1,
                        p >= 1,
                ;
                if k == -74 {
                    assert(p == pow2(74));
                }
            }
            up = up * 2;
            k = k - 1;
        }
    } else {
        let mut down: u128 = d;
        while down <= n / 2
            invariant
                0 < d <= down <= n,
                0 <= k < 128,
                down == d * pow2(k as nat),
            decreases n - down,
        {
            proof {
                lemma_pow2_unfold((k + 1) as nat);
                let p = pow2(k as nat) as int;
                let dd = d as int;
                assert(dd * (2 * p) == 2 * (dd * p)) by (nonlinear_arith);
                if k == 127 {
                    lemma_pow2_127();
                    assert(dd * p >= p) by (nonlinear_arith)
                        requires
                            dd >= 1,
                            p >= 0,
                    ;
                }
            }
            down = down * 2;
            k = k + 1;
        }
        proof {
            lemma_pow2_unfold((k + 1) as nat);
            let p = pow2(k as nat) as int;
            let dd = d as int;
            assert(dd * (2 * p) == 2 * (dd * p)) by (nonlinear_arith);
        }
    }
    k
}

impl Binary64 {
    /// A number of this type is zero or starts with a one, and its exponent is far
    /// inside the range of its field.
    pub open spec fn wf(self) -> bool {
        &&& normalized(self@)
        &&& -1000 <= self.exponent <= 1000
    }

    /// `(n / d) * 2^scale`, rounded.
    pub fn from_ratio(n: u128, d: u128, scale: i32) -> (x: Binary64)
        requires
            0 < d < pow2(74),
            -800 <= scale <= 800,
        ensures
            x.wf(),
            x@ == rounded(n as nat, d as nat, scale as int),
            n > 0 ==> in_binade(n as nat, d as nat, binade(n as nat, d as nat)),
    {
        if n == 0 {
            return Binary64 { mantissa: 0, exponent: 0 };
        }
        let k: i32 = exact_binade(n, d);
        proof {
            lemma_pow2_127();
            lemma_binade(n as nat, d as nat, k as int);
            lemma_scaled(n as nat, d as nat, k as int);
            lemma_rounded_exponent(n as nat, d as nat, scale as int, k as int);
        }
        let m: u128 = if k >= 52 {
            let p: u128 = exact_pow2((k - 52) as u32);
            proof {
                let b = pow2(52) as int;
                let x = d as int * p as int;
                assert(x <= x * b) by (nonlinear_arith)
                    requires
                        x >= 0,
                        b >= 1,
                ;
                lemma_pow2_pos((k - 52) as nat);
                assert(d as int * p as int >= d) by (nonlinear_arith)
                    requires
                        p >= 1,
                        d > 0,
                ;
            }
            exact_round_half_even(n, d * p)
        } else {
            let p: u128 = exact_pow2((52 - k) as u32);
            exact_round_half_even(n * p, d)
        };
        if m == 0x20_0000_0000_0000 {
            Binary64 { mantissa: 0x10_0000_0000_0000, exponent: k - 51 + scale }
        } else {
            Binary64 { mantissa: m as u64, exponent: k - 52 + scale }
        }
    }

    /// `n`, rounded.
    pub fn from_u64(n: u64) -> (x: Binary64)
        ensures
            x.wf(),
            x@ == of_nat(n as nat),
            n > 0 ==> x.mantissa > 0 && -52 <= x.exponent <= 12,
    {
        proof {
            lemma_pow2_127();
            lemma2_to64();
            lemma_pow2_pos(74);
        }
        let x = Binary64::from_ratio(n as u128, 1, 0);
        proof {
            if n > 0 {
                let k = binade(n as nat, 1);
                lemma_binade_bounds(n as nat, 1, 0, 64, k);
                lemma_rounded_exponent(n as nat, 1, 0, k);
            }
        }
        x
    }

    /// The quotient, rounded.
    pub fn over(self, other: Binary64) -> (x: Binary64)
        requires
            self.wf(),
            other.wf(),
            other.mantissa > 0,
            -300 <= self.exponent <= 300,
            -300 <= other.exponent <= 300,
        ensures
            x.wf(),
            x@ == quotient(self@, other@),
            self.mantissa == 0 ==> x.mantissa == 0,
            self.mantissa > 0 ==> {
                &&& x.mantissa > 0
                &&& self.exponent - other.exponent - 53 <= x.exponent
                &&& x.exponent <= self.exponent - other.exponent - 51
            },
    {
        proof {
            lemma_pow2_127();
            lemma2_to64();
        }
        let x = Binary64::from_ratio(
            self.mantissa as u128,
            other.mantissa as u128,
            self.exponent - other.exponent,
        );
        proof {
            let a = self.mantissa as nat;
            let b = other.mantissa as nat;
            let s = self.exponent - other.exponent;
            let p0 = pow2(0);
            let p1 = pow2(1);
            assert(b * p0 == b && b * p1 == 2 * b && a * p1 == 2 * a) by (nonlinear_arith)
                requires
                    p0 == 1,
                    p1 == 2,
            ;
            if a >= b {
                assert(in_binade(a, b, 0));
                lemma_rounded_exponent(a, b, s, 0);
            } else if a > 0 {
                assert(in_binade(a, b, -1));
                lemma_rounded_exponent(a, b, s, -1);
            }
        }
        x
    }

    /// The product with a small whole number, rounded.
    pub fn times(self, k: u64) -> (x: Binary64)
        requires
            self.wf(),
            0 < k <= 1024,
            -300 <= self.exponent <= 300,
        ensures
            x.wf(),
            x@ == product(self@, k as nat),
            self.mantissa == 0 ==> x.mantissa == 0,
            self.mantissa > 0 ==> {
                &&& x.mantissa > 0
                &&& self.exponent <= x.exponent <= self.exponent + 12
            },
    {
        proof {
            lemma_pow2_127();
            lemma2_to64();
            let m = self.mantissa as int;
            let kk = k as int;
            assert(m <= m * kk <= m * 1024) by (nonlinear_arith)
                requires
                    m >= 0,
                    1 <= kk <= 1024,
            ;
        }
        let n: u128 = self.mantissa as u128 * k as u128;
        let x = Binary64::from_ratio(n, 1, self.exponent);
        proof {
            if self.mantissa > 0 {
                let j = binade(n as nat, 1);
                lemma_binade_bounds(n as nat, 1, 52, 63, j);
                lemma_rounded_exponent(n as nat, 1, self.exponent as int, j);
            }
        }
        x
    }

    /// The sum, rounded.
    pub fn plus(self, other: Binary64) -> (x: Binary64)
        requires
            self.wf(),
            other.wf(),
            -100 <= self.exponent <= 100,
            -100 <= other.exponent <= 100,
            self.mantissa == 0 || self.exponent - other.exponent <= 70,
            other.mantissa == 0 || other.exponent - self.exponent <= 70,
            -120 <= self.exponent - other.exponent <= 120,
        ensures
            x.wf(),
            x@ == total(self@, other@),
            self.mantissa > 0 ==> x.mantissa > 0 && x.exponent >= self.exponent,
            other.mantissa > 0 ==> x.mantissa > 0 && x.exponent >= other.exponent,
            x.mantissa > 0 ==> {
                ||| self.mantissa > 0 && x.exponent <= self.exponent + 2
                ||| other.mantissa > 0 && x.exponent <= other.exponent + 2
            },
    {
        let low: i32 = if self.exponent < other.exponent { self.exponent } else { other.exponent };
        let i: i32 = self.exponent - low;
        let j: i32 = other.exponent - low;
        let p: u128 = exact_pow2(i as u32);
        let q: u128 = exact_pow2(j as u32);
        let ghost top: int = if other.mantissa == 0 || (self.mantissa > 0 && i > j) {
            i as int
        } else {
            j as int
        };
        proof {
            lemma_pow2_127();
            lemma2_to64();
            if self.mantissa > 0 {
                lemma_shifted(self.mantissa as nat, i as nat, top as nat);
                lemma_shifted(self.mantissa as nat, i as nat, i as nat);
                lemma_pow2_at_least(123, (53 + i) as nat);
                lemma_pow2_pos((52 + i) as nat);
            }
            if other.mantissa > 0 {
                lemma_shifted(other.mantissa as nat, j as nat, top as nat);
                lemma_shifted(other.mantissa as nat, j as nat, j as nat);
                lemma_pow2_at_least(123, (53 + j) as nat);
                lemma_pow2_pos((52 + j) as nat);
            }
            lemma_pow2_adds(74, 49);
            vstd::arithmetic::power2::lemma2_to64_rest();
            lemma_pow2_unfold((54 + top) as nat);
            assert(0 * (p as int) == 0 && 0 * (q as int) == 0);
        }
        let n: u128 = self.mantissa as u128 * p + other.mantissa as u128 * q;
        let x = Binary64::from_ratio(n, 1, low);
        proof {
            if n > 0 {
                let k = binade(n as nat, 1);
                lemma_rounded_exponent(n as nat, 1, low as int, k);
                if self.mantissa > 0 {
                    lemma_binade_bounds(n as nat, 1, (52 + i) as nat, (54 + top) as nat, k);
                }
                if other.mantissa > 0 {
                    lemma_binade_bounds(n as nat, 1, (52 + j) as nat, (54 + top) as nat, k);
                }
            }
        }
        x
    }

    /// `self < n`.
    pub fn is_below(self, n: u64) -> (b: bool)
        requires
            self.wf(),
        ensures
            b == below(self@, n as nat),
    {
        proof {
            lemma_pow2_127();
        }
        if self.exponent >= 0 {
            if self.mantissa == 0 {
                return n > 0;
            }
            if self.exponent >= 12 {
                proof {
                    lemma_pow2_at_least(self.exponent as nat, 12);
                    let m = self.mantissa as int;
                    let p = pow2(self.exponent as nat) as int;
                    assert(m * p >= 0x10_0000_0000_0000 * 0x1000) by (nonlinear_arith)
                        requires
                            m >= 0x10_0000_0000_0000,
                            p >= 0x1000,
                    ;
                }
                return false;
            }
            let p: u128 = exact_pow2(self.exponent as u32);
            proof {
                lemma_pow2_70(self.exponent as int);
                let m = self.mantissa as int;
                let pp = p as int;
                assert(m * pp <= 0x20_0000_0000_0000 * 0x40_0000_0000_0000_0000) by (nonlinear_arith)
                    requires
                        0 <= m <= 0x20_0000_0000_0000,
                        1 <= pp <= 0x40_0000_0000_0000_0000,
                ;
            }
            self.mantissa as u128 * p < n as u128
        } else {
            if n == 0 {
                return false;
            }
            if self.exponent < -60 {
                proof {
                    lemma_pow2_at_least((-self.exponent) as nat, 53);
                    let nn = n as int;
                    let p = pow2((-self.exponent) as nat) as int;
                    assert(nn * p >= p) by (nonlinear_arith)
                        requires
                            nn >= 1,
                            p >= 0,
                    ;
                }
                return true;
            }
            let p: u128 = exact_pow2((-self.exponent) as u32);
            proof {
                lemma_pow2_at_least(62, (-self.exponent) as nat);
                lemma2_to64();
                vstd::arithmetic::power2::lemma2_to64_rest();
                let nn = n as int;
                let pp = p as int;
                assert(nn * pp <= 0xffff_ffff_ffff_ffff * 0x4000_0000_0000_0000) by (nonlinear_arith)
                    requires
                        0 <= nn <= 0xffff_ffff_ffff_ffff,
                        0 <= pp <= 0x4000_0000_0000_0000,
                ;
            }
            (self.mantissa as u128) < n as u128 * p
        }
    }

    /// The whole part, or the greatest `u64` where it is greater than that.
    pub fn to_u64(self) -> (n: u64)
        requires
            self.wf(),
        ensures
            n == saturated(whole_part(self@)),
    {
        proof {
            lemma_pow2_127();
        }
        if self.exponent >= 0 {
            if self.mantissa == 0 {
                return 0;
            }
            if self.exponent >= 12 {
                proof {
                    lemma_pow2_at_least(self.exponent as nat, 12);
                    let m = self.mantissa as int;
                    let p = pow2(self.exponent as nat) as int;
                    assert(m * p >= 0x10_0000_0000_0000 * 0x1000) by (nonlinear_arith)
                        requires
                            m >= 0x10_0000_0000_0000,
                            p >= 0x1000,
                    ;
                }
                return u64::MAX;
            }
            let p: u128 = exact_pow2(self.exponent as u32);
            proof {
                lemma_pow2_70(self.exponent as int);
                let m = self.mantissa as int;
                let pp = p as int;
                assert(m * pp <= 0x20_0000_0000_0000 * 0x40_0000_0000_0000_0000) by (nonlinear_arith)
                    requires
                        0 <= m <= 0x20_0000_0000_0000,
                        1 <= pp <= 0x40_0000_0000_0000_0000,
                ;
            }
            let whole: u128 = self.mantissa as u128 * p;
            if whole > u64::MAX as u128 {
                u64::MAX
            } else {
                whole as u64
            }
        } else if self.exponent < -60 {
            proof {
                let p = pow2((-self.exponent) as nat);
                lemma_pow2_at_least((-self.exponent) as nat, 53);
                vstd::arithmetic::div_mod::lemma_basic_div(self.mantissa as int, p as int);
            }
            0
        } else {
            let p: u128 = exact_pow2((-self.exponent) as u32);
            proof {
                lemma_pow2_pos((-self.exponent) as nat);
                vstd::arithmetic::div_mod::lemma_div_is_ordered_by_denominator(
                    self.mantissa as int,
                    1,
                    p as int,
                );
            }
            (self.mantissa as u128 / p) as u64
        }
    }

    /// `self * 10^places`, rounded to a whole number.
    pub fn decimal(self, places: u32) -> (n: u128)
        requires
            self.wf(),
            places <= 3,
            self.exponent <= 60,
        ensures
            n as nat == decimal_scaled(self@, places as nat),
    {
        let unit: u128 = if places == 0 {
            1
        } else if places == 1 {
            10
        } else if places == 2 {
            100
        } else {
            1000
        };
        proof {
            lemma_pow2_127();
            assert(unit as nat == pow10(places as nat)) by {
                reveal_with_fuel(pow10, 4);
            }
            let m = self.mantissa as int;
            let u = unit as int;
            assert(0 <= m * u <= 0x20_0000_0000_0000 * 1000) by (nonlinear_arith)
                requires
                    0 <= m <= 0x20_0000_0000_0000,
                    1 <= u <= 1000,
            ;
        }
        let scaled: u128 = self.mantissa as u128 * unit;
        if self.exponent >= 0 {
            let p: u128 = exact_pow2(self.exponent as u32);
            proof {
                lemma_pow2_at_least(60, self.exponent as nat);
                vstd::arithmetic::power2::lemma2_to64_rest();
                let a = scaled as int;
                let pp = p as int;
                assert(a * pp <= 0x20_0000_0000_0000 * 1000 * 0x1000_0000_0000_0000)
                    by (nonlinear_arith)
                    requires
                        0 <= a <= 0x20_0000_0000_0000 * 1000,
                        0 <= pp <= 0x1000_0000_0000_0000,
                ;
            }
            scaled * p
        } else if self.exponent < -100 {
            proof {
                let p = pow2((-self.exponent) as nat);
                lemma_pow2_at_least((-self.exponent) as nat, 74);
                vstd::arithmetic::div_mod::lemma_basic_div(scaled as int, p as int);
                vstd::arithmetic::div_mod::lemma_small_mod(scaled as nat, p);
            }
            0
        } else {
            let p: u128 = exact_pow2((-self.exponent) as u32);
            proof {
                lemma_pow2_pos((-self.exponent) as nat);
            }
            exact_round_half_even(scaled, p)
        }
    }

    /// Appends the number with `places` digits behind the decimal point.
    pub fn append_fixed(self, out: &mut String, places: u32)
        requires
            self.wf(),
            places <= 3,
            self.exponent <= 60,
        ensures
            final(out)@ == old(out)@ + fixed_text(self@, places as nat),
    {
        append_fixed_point(out, self.decimal(places), places);
    }

    /// The digits and the number of decimal places of the shortest decimal number
    /// that stands for `self` and no other number.
    pub fn shortest(self) -> (res: (u128, u32))
        requires
            self.wf(),
            self.mantissa > 0,
            -120 <= self.exponent < 0,
        ensures
            res.1 as nat == fewest_places(self@),
            res.0 as nat == nearest_short(self@, res.1 as nat),
    {
        let unit: u128 = exact_pow2((-self.exponent) as u32);
        proof {
            lemma_pow2_pos((-self.exponent) as nat);
        }
        let even: bool = self.mantissa % 2 == 0;
        let mut digits: u128 = self.mantissa as u128 / unit;
        let mut rest: u128 = self.mantissa as u128 % unit;
        let mut step: u128 = 1;
        let mut places: u32 = 0;
        let ghost x = self@;
        let ghost u = unit as nat;
        proof {
            lemma_pow2_127();
            lemma_pow2_at_least(120, (-self.exponent) as nat);
            lemma_pow2_adds(74, 46);
            vstd::arithmetic::power2::lemma2_to64_rest();
            let m = x.m;
            assert(m * 1 == m);
        }
        loop
            invariant
                x == self@,
                x.e == self.exponent,
                x.m == self.mantissa,
                self.exponent < 0,
                u == unit,
                u == pow2((-x.e) as nat),
                0 < u <= 0x100_0000_0000_0000_0000_0000_0000_0000,
                even == (x.m % 2 == 0),
                pow2(52) == 0x10_0000_0000_0000,
                0 < x.m < 0x20_0000_0000_0000,
                step as nat == pow10(places as nat),
                1 <= step <= 40 * u,
                digits as nat == (x.m * step) as nat / u,
                rest as nat == (x.m * step) as nat % u,
                forall|i: nat| i < places ==> !enough_places(x, i),
            decreases 40 * u - step,
        {
            proof {
                vstd::arithmetic::div_mod::lemma_mod_bound((x.m * step) as int, u as int);
            }
            let below_gap: u128 = if self.mantissa == 0x10_0000_0000_0000 {
                step
            } else {
                2 * step
            };
            let floor_ok: bool = if even {
                4 * rest <= below_gap
            } else {
                4 * rest < below_gap
            };
            let miss: u128 = unit - rest;
            let ceil_ok: bool = if even {
                4 * miss <= 2 * step
            } else {
                4 * miss < 2 * step
            };
            assert(floor_ok == floor_stands_for(x, places as nat));
            assert(ceil_ok == ceil_stands_for(x, places as nat));
            if floor_ok || ceil_ok {
                proof {
                    lemma_fewest_places(x, places as nat);
                    lemma_div_bound(x.m * step as nat, u, x.m, step as nat);
                }
                if ceil_ok && (!floor_ok || rest >= unit - rest) {
                    return (digits + 1, places);
                }
                return (digits, places);
            }
            proof {
                let before = (x.m * step) as nat;
                lemma_next_digit(before, u);
                lemma_pow10_at_least(places as nat);
                lemma_pow2_127();
                if places >= 127 {
                    lemma_pow2_at_least(places as nat, 127);
                }
                lemma_div_bound(before, u, x.m, step as nat);
                let m = x.m as int;
                let st = step as int;
                assert(m * (10 * st) == 10 * (m * st)) by (nonlinear_arith);
            }
            digits = 10 * digits + 10 * rest / unit;
            rest = 10 * rest % unit;
            step = 10 * step;
            places = places + 1;
        }
    }

    /// Appends the number with as few decimal places as tell it from every other one.
    pub fn append_shortest(self, out: &mut String)
        requires
            self.wf(),
            self.mantissa > 0 ==> -120 <= self.exponent < 0,
        ensures
            final(out)@ == old(out)@ + shortest_text(self@),
    {
        if self.mantissa == 0 {
            out.append("0");
        } else {
            let (digits, places) = self.shortest();
            append_fixed_point(out, digits, places);
        }
    }

    /// A number under a small bound has a negative exponent.
    pub proof fn lemma_below_is_fraction(self, n: u64)
        requires
            self.wf(),
            n <= 0x10_0000_0000_0000,
            below(self@, n as nat),
        ensures
            self.mantissa > 0 ==> self.exponent < 0,
    {
        lemma_pow2_127();
        if self.exponent >= 0 {
            lemma_pow2_pos(self.exponent as nat);
            let m = self.mantissa as int;
            let p = pow2(self.exponent as nat) as int;
            assert(m * p >= m) by (nonlinear_arith)
                requires
                    m >= 0,
                    p >= 1,
            ;
        }
    }

    /// `ns` nanoseconds in seconds: the whole seconds plus the fraction, each operation
    /// rounded.
    pub fn from_nanos(ns: u64) -> (x: Binary64)
        ensures
            x.wf(),
            x@ == seconds_of(ns as nat),
            (ns == 0) == (x.mantissa == 0),
            ns == 0 ==> x.exponent == 0,
            ns > 0 ==> -83 <= x.exponent <= -14,
    {
        let secs: u64 = ns / 1_000_000_000;
        let nanos: u64 = ns % 1_000_000_000;
        let whole = Binary64::from_u64(secs);
        let billion = Binary64::from_u64(1_000_000_000);
        let part = Binary64::from_u64(nanos);
        proof {
            lemma2_to64();
            vstd::arithmetic::power2::lemma2_to64_rest();
            lemma_billion_exponent();
            if secs > 0 {
                lemma_of_nat_exponent(secs as nat, 0, 35);
            }
            if nanos > 0 {
                lemma_of_nat_exponent(nanos as nat, 0, 30);
            }
        }
        let fraction = part.over(billion);
        whole.plus(fraction)
    }
}

/// A quotient that scaling by `2^s` brings between `2^52` and `2^53` is of binade `52 - s`.
proof fn lemma_unscaled(n: nat, d: nat, s: nat)
    requires
        d > 0,
        d * pow2(52) <= n * pow2(s) < d * pow2(53),
    ensures
        in_binade(n, d, 52 - s),
{
    let u = pow2(s);
    lemma_pow2_pos(s);
    lemma_pow2_unfold(53);
    if s <= 52 {
        let a = pow2((52 - s) as nat);
        let b = pow2((53 - s) as nat);
        lemma_pow2_adds((52 - s) as nat, s);
        lemma_pow2_adds((53 - s) as nat, s);
        assert(d * a <= n) by (nonlinear_arith)
            requires
                d * (a * u) <= n * u,
                u > 0,
        ;
        assert(n < d * b) by (nonlinear_arith)
            requires
                n * u < d * (b * u),
                u > 0,
        ;
    } else {
        let a = pow2((s - 52) as nat);
        let c = pow2(52);
        lemma_pow2_adds((s - 52) as nat, 52);
        lemma_pow2_pos(52);
        assert(d <= n * a) by (nonlinear_arith)
            requires
                d * c <= n * (a * c),
                c > 0,
        ;
        assert(n * a < 2 * d) by (nonlinear_arith)
            requires
                n * (a * c) < d * (2 * c),
                c > 0,
        ;
    }
}

/// `n` divided by `d`, where `n` is `q * d + r`.
proof fn lemma_divided(n: nat, d: nat, q: nat, r: nat)
    requires
        n == q * d + r,
        r < d,
    ensures
        n / d == q,
        n % d == r,
{
    vstd::arithmetic::div_mod::lemma_fundamental_div_mod_converse(
        n as int,
        d as int,
        q as int,
        r as int,
    );
}

/// Rounding a quotient to a whole number is off by no more than a half, and by a half only
/// where the whole number is even.
pub proof fn law_rounding_is_off_by_half(n: nat, d: nat)
    requires
        d > 0,
    ensures
        ({
            let m = round_half_even(n, d);
            &&& 2 * n <= 2 * (m * d) + d
            &&& 2 * (m * d) <= 2 * n + d
            &&& m % 2 != 0 ==> 2 * n < 2 * (m * d) + d && 2 * (m * d) < 2 * n + d
        }),
{
    let q = n / d;
    let r = n % d;
    let m = round_half_even(n, d);
    vstd::arithmetic::div_mod::lemma_fundamental_div_mod(n as int, d as int);
    vstd::arithmetic::div_mod::lemma_mod_bound(n as int, d as int);
    assert(d * q == q * d) by (nonlinear_arith);
    assert((q + 1) * d == q * d + d) by (nonlinear_arith);
}

/// A decimal number that is no further above `a` than half the distance to the next number
/// rounds to `a`.
proof fn lemma_reads_back_above(a: Dyadic, n: nat, d: nat, miss: nat)
    requires
        pow2(52) <= a.m < pow2(53),
        a.e < 0,
        d > 0,
        n * pow2((-a.e) as nat) == a.m * d + miss,
        2 * miss <= d,
        a.m % 2 != 0 ==> 2 * miss < d,
    ensures
        rounded(n, d, 0) == a,
{
    let s = (-a.e) as nat;
    let t = n * pow2(s);
    let lo = pow2(52);
    let hi = pow2(53);
    let m = a.m;
    assert(d * lo <= m * d && (m + 1) * d <= d * hi && (m + 1) * d == m * d + d)
        by (nonlinear_arith)
        requires
            lo <= m,
            m + 1 <= hi,
    ;
    lemma_unscaled(n, d, s);
    lemma_binade(n, d, 52 - s);
    lemma_divided(t, d, m, miss);
    lemma_pow2_pos(52);
    if n == 0 {
        assert(0 * pow2(s) == 0) by (nonlinear_arith);
        assert(m * d > 0) by (nonlinear_arith)
            requires
                m > 0,
                d > 0,
        ;
    }
}

/// A decimal number that is no further below `a` than half the distance to the next lower
/// number rounds to `a`.
proof fn lemma_reads_back_below(a: Dyadic, n: nat, d: nat, excess: nat)
    requires
        pow2(52) <= a.m < pow2(53),
        a.e < 0,
        d > 0,
        excess > 0,
        n * pow2((-a.e) as nat) + excess == a.m * d,
        a.m > pow2(52) ==> 2 * excess <= d,
        a.m % 2 != 0 ==> 2 * excess < d,
        a.m == pow2(52) ==> 4 * excess <= d,
    ensures
        rounded(n, d, 0) == a,
{
    let s = (-a.e) as nat;
    let t = n * pow2(s);
    let lo = pow2(52);
    let hi = pow2(53);
    let m = a.m;
    lemma_pow2_pos(52);
    lemma_pow2_unfold(53);
    lemma_pow2_unfold(52);
    assert(m * d >= d) by (nonlinear_arith)
        requires
            m >= 1,
    ;
    if n == 0 {
        assert(0 * pow2(s) == 0) by (nonlinear_arith);
    }
    if m > lo {
        assert(d * lo <= (m - 1) * d && m * d <= d * hi && (m - 1) * d == m * d - d)
            by (nonlinear_arith)
            requires
                lo + 1 <= m,
                m <= hi,
        ;
        lemma_unscaled(n, d, s);
        lemma_binade(n, d, 52 - s);
        lemma_divided(t, d, (m - 1) as nat, (d - excess) as nat);
    } else {
        lemma_pow2_unfold(s + 1);
        let p = pow2(s);
        assert(n * (2 * p) == 2 * (n * p)) by (nonlinear_arith);
        assert(lo * d == d * lo && hi * d == d * hi && hi * d == 2 * (lo * d) && (hi - 1) * d == hi
            * d - d && lo * d >= d) by (nonlinear_arith)
            requires
                hi == 2 * lo,
                lo >= 1,
        ;
        lemma_unscaled(n, d, s + 1);
        lemma_binade(n, d, 51 - s);
        lemma_divided(2 * t, d, (hi - 1) as nat, (d - 2 * excess) as nat);
        assert((hi - 1) % 2 == 1);
    }
}

/// The shortest text of a number, read as a number, is that number again.
pub proof fn law_shortest_reads_back(a: Dyadic, places: nat)
    requires
        normalized(a),
        a.m > 0,
        a.e < 0,
        is_fewest_places(a, places),
    ensures
        rounded(nearest_short(a, places), pow10(places), 0) == a,
{
    let d = pow10(places);
    let u = pow2((-a.e) as nat);
    lemma_pow10_positive(places);
    lemma_pow2_pos((-a.e) as nat);
    let x = a.m * d;
    let lower = x / u;
    let r = x % u;
    vstd::arithmetic::div_mod::lemma_fundamental_div_mod(x as int, u as int);
    vstd::arithmetic::div_mod::lemma_mod_bound(x as int, u as int);
    assert(lower * u == u * lower && (lower + 1) * u == lower * u + u) by (nonlinear_arith);
    let n = nearest_short(a, places);
    if n == lower + 1 {
        lemma_reads_back_above(a, n, d, (u - r) as nat);
    } else if r == 0 {
        lemma_reads_back_above(a, n, d, 0);
    } else {
        lemma_reads_back_below(a, n, d, r);
    }
}

/// Every positive quotient has a binade.
proof fn lemma_binade_of_ratio(n: nat, d: nat)
    requires
        n > 0,
        d > 0,
    ensures
        in_binade(n, d, binade(n, d)),
{
    if n >= d {
        let q = n / d;
        vstd::arithmetic::div_mod::lemma_fundamental_div_mod(n as int, d as int);
        vstd::arithmetic::div_mod::lemma_mod_bound(n as int, d as int);
        vstd::arithmetic::div_mod::lemma_div_non_zero(n as int, d as int);
        let k = lemma_binade_exists(q);
        let lo = pow2(k);
        let hi = pow2(k + 1);
        let r = n % d;
        assert(d * lo <= n < d * hi) by (nonlinear_arith)
            requires
                n == d * q + r,
                r < d,
                1 * lo <= q,
                q < 1 * hi,
        ;
        assert(in_binade(n, d, k as int));
    } else {
        let q = ((d - 1) as nat) / n;
        let r = ((d - 1) as nat) % n;
        vstd::arithmetic::div_mod::lemma_fundamental_div_mod(d - 1, n as int);
        vstd::arithmetic::div_mod::lemma_mod_bound(d - 1, n as int);
        vstd::arithmetic::div_mod::lemma_div_non_zero(d - 1, n as int);
        let k = lemma_binade_exists(q);
        let lo = pow2(k);
        let hi = pow2(k + 1);
        lemma_pow2_unfold(k + 1);
        assert(d <= n * hi && n * hi < 2 * d) by (nonlinear_arith)
            requires
                d - 1 == n * q + r,
                r < n,
                1 * lo <= q,
                q < 1 * hi,
                hi == 2 * lo,
        ;
        assert(in_binade(n, d, -(k + 1)));
    }
}

/// No decimal number of fewer places than the shortest text has stands for the number.
pub proof fn law_shortest_is_shortest(a: Dyadic, n: nat, places: nat)
    requires
        normalized(a),
        a.m > 0,
        a.e < 0,
        rounded(n, pow10(places), 0) == a,
    ensures
        enough_places(a, places),
{
    let d = pow10(places);
    let s = (-a.e) as nat;
    let u = pow2(s);
    lemma_pow10_positive(places);
    lemma_pow2_pos(s);
    lemma_pow2_pos(52);
    lemma_pow2_unfold(53);
    lemma_pow2_unfold(52);
    let m = a.m;
    let x = m * d;
    let t = n * u;
    let k = binade(n, d);
    lemma_binade_of_ratio(n, d);
    lemma_scaled(n, d, k);
    lemma_rounded_exponent(n, d, 0, k);
    let lower = x / u;
    let r = x % u;
    vstd::arithmetic::div_mod::lemma_fundamental_div_mod(x as int, u as int);
    vstd::arithmetic::div_mod::lemma_mod_bound(x as int, u as int);
    if k - 52 == a.e {
        assert(significand(n, d, k - 52) == m);
        law_rounding_is_off_by_half(t, d);
        if t >= x {
            if t == x {
                assert(r == 0) by {
                    lemma_divided(x, u, n, 0);
                }
            } else {
                assert(t - x >= u - r) by (nonlinear_arith)
                    requires
                        t == n * u,
                        x == u * lower + r,
                        r < u,
                        t > x,
                ;
            }
        } else {
            assert(x - t >= r) by (nonlinear_arith)
                requires
                    t == n * u,
                    x == u * lower + r,
                    r < u,
                    t < x,
            ;
            let lo = pow2(52);
            assert(d * lo == lo * d) by (nonlinear_arith);
            assert(m != lo);
        }
    } else {
        // The significand was rounded up to a power of two.
        assert(k - 51 == a.e);
        assert(m == pow2(52));
        lemma_pow2_unfold(s + 1);
        assert(n * (2 * u) == 2 * t) by (nonlinear_arith)
            requires
                t == n * u,
        ;
        assert(significand(n, d, k - 52) == pow2(53));
        law_rounding_is_off_by_half(2 * t, d);
        let lo = pow2(52);
        let hi = pow2(53);
        assert(hi * d == 2 * x && d * hi == hi * d) by (nonlinear_arith)
            requires
                x == lo * d,
                hi == 2 * lo,
        ;
        assert(t < x);
        assert(x - t >= r) by (nonlinear_arith)
            requires
                t == n * u,
                x == u * lower + r,
                r < u,
                t < x,
        ;
    }
}

} // verus!
