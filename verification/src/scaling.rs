//! Scaling of frequency tables to a power-of-two total.
//!
//! The wire formats fix this computation down to the last bit: each
//! frequency is multiplied by the ratio of the two totals in double
//! precision and truncated. Here both roundings are carried out on integers:
//! a double keeps 53 significant bits and rounds to the nearest, ties to
//! even.

use crate::interval;
use vstd::arithmetic::power2::pow2;
use vstd::prelude::*;

verus! {

/// `2^52`: the weight of the leading bit of a double between 1 and 2.
pub const LEAD: u64 = 0x10_0000_0000_0000;

/// `2^31`: the largest total that can be scaled.
pub const MAX_TOTAL: u32 = 0x8000_0000;

/// `n` is a power of two.
pub open spec fn is_power_of_two(n: nat) -> bool
    decreases n,
{
    if n <= 1 {
        n == 1
    } else {
        n % 2 == 0 && is_power_of_two(n / 2)
    }
}

/// The first of `p`, `2p`, `4p`, ... that is at least `n`.
pub open spec fn doubled_to(n: nat, p: nat) -> nat
    decreases 2 * n - p,
{
    if p >= n || p == 0 {
        p
    } else {
        doubled_to(n, 2 * p)
    }
}

/// The smallest power of two that is at least `n`.
pub open spec fn ceil_pow2(n: nat) -> nat {
    doubled_to(n, 1)
}

/// `a / b` rounded to the nearest integer, ties to even.
pub open spec fn round_half_even(a: nat, b: nat) -> nat {
    let q = a / b;
    let r = a % b;
    if 2 * r < b {
        q
    } else if 2 * r > b {
        q + 1
    } else {
        q + q % 2
    }
}

/// The first of `u`, `2u`, `4u`, ... in units of which `x` has at most 53
/// bits.
pub open spec fn unit_from(x: nat, u: nat) -> nat
    decreases 2 * x - u,
{
    if x < u * (2 * LEAD) || u == 0 || x <= u {
        u
    } else {
        unit_from(x, 2 * u)
    }
}

/// The unit in the last of 53 significant bits of `x`.
pub open spec fn unit_of(x: nat) -> nat {
    unit_from(x, 1)
}

/// `x` rounded to 53 significant bits.
pub open spec fn rounded(x: nat) -> nat {
    round_half_even(x, unit_of(x)) * unit_of(x)
}

/// The double nearest to `to / from`, in units of `2^-52`.
pub open spec fn ratio(from: nat, to: nat) -> nat {
    round_half_even(to * LEAD as nat, from)
}

/// The double product of `f` and the double `to / from`, truncated.
pub open spec fn scaled(f: nat, from: nat, to: nat) -> nat {
    rounded(f * ratio(from, to)) / (LEAD as nat)
}

/// Every frequency of a table scaled.
pub open spec fn scaled_table(f: Seq<u32>, from: nat, to: nat) -> Seq<u32> {
    Seq::new(256, |i: int| scaled(f[i] as nat, from, to) as u32)
}

/// A total that needs scaling, and the power of two above it.
pub open spec fn scales(from: nat, to: nat) -> bool {
    0 < from < to < 2 * from && to <= MAX_TOTAL
}

// ---------------------------------------------------------------------
// Powers of two
// ---------------------------------------------------------------------

pub proof fn lemma_double_power(p: nat)
    requires
        is_power_of_two(p),
    ensures
        is_power_of_two(2 * p),
        p >= 1,
{
    assert((2 * p) / 2 == p);
}

pub proof fn lemma_doubled_to(n: nat, p: nat)
    requires
        is_power_of_two(p),
        p < 2 * n || n == 0,
    ensures
        is_power_of_two(doubled_to(n, p)),
        n <= doubled_to(n, p),
        doubled_to(n, p) < 2 * n || n == 0,
        p <= doubled_to(n, p),
    decreases 2 * n - p,
{
    lemma_double_power(p);
    if p < n {
        lemma_doubled_to(n, 2 * p);
    }
}

/// The power of two at or above `n` is below `2n`.
pub proof fn lemma_ceil_pow2(n: nat)
    requires
        n >= 1,
    ensures
        is_power_of_two(ceil_pow2(n)),
        n <= ceil_pow2(n) < 2 * n,
{
    assert(is_power_of_two(1));
    lemma_doubled_to(n, 1);
}

/// A power of two is its own ceiling.
pub proof fn lemma_ceil_of_power(n: nat)
    requires
        is_power_of_two(n),
    ensures
        ceil_pow2(n) == n,
{
    lemma_double_power(n);
    lemma_ceil_pow2(n);
    lemma_powers_apart(n, ceil_pow2(n));
}

/// Two powers of two are equal or one is at least twice the other.
pub proof fn lemma_powers_apart(a: nat, b: nat)
    requires
        is_power_of_two(a),
        is_power_of_two(b),
        a <= b,
    ensures
        a == b || 2 * a <= b,
    decreases b,
{
    lemma_double_power(a);
    if a > 1 {
        lemma_powers_apart(a / 2, b / 2);
    }
}

/// No power of two lies strictly between `2^31` and `2^32`, so a total above
/// `2^31` has no 32-bit power of two above it.
pub proof fn lemma_max_total_power()
    ensures
        is_power_of_two(MAX_TOTAL as nat),
        is_power_of_two(0x1_0000_0000),
{
    reveal_with_fuel(is_power_of_two, 34);
}

/// A power of two at or above `n` is at or above the smallest one.
pub proof fn lemma_ceil_below(n: nat, p: nat)
    requires
        1 <= n <= p,
        is_power_of_two(p),
    ensures
        ceil_pow2(n) <= p,
{
    lemma_ceil_pow2(n);
    if ceil_pow2(n) > p {
        lemma_powers_apart(p, ceil_pow2(n));
    }
}

/// The power of two above a total of at most `2^31` is at most `2^31`.
pub proof fn lemma_ceil_bound(n: nat)
    requires
        1 <= n <= MAX_TOTAL,
    ensures
        ceil_pow2(n) <= MAX_TOTAL,
{
    lemma_max_total_power();
    lemma_ceil_below(n, MAX_TOTAL as nat);
}

/// The smallest power of two that is at least `n`.
pub fn next_pow2(n: u64) -> (r: u64)
    requires
        n <= 0x8000_0000_0000_0000,
    ensures
        r == ceil_pow2(n as nat),
{
    let mut p: u64 = 1;
    while p < n
        invariant
            p >= 1,
            n <= 0x8000_0000_0000_0000,
            doubled_to(n as nat, p as nat) == ceil_pow2(n as nat),
        decreases 2 * n - p,
    {
        p = p * 2;
    }
    p
}

/// Whether `n` is a power of two.
pub fn is_pow2(n: u32) -> (r: bool)
    ensures
        r == is_power_of_two(n as nat),
{
    let mut x: u32 = n;
    while x > 1 && x % 2 == 0
        invariant
            is_power_of_two(n as nat) == is_power_of_two(x as nat),
        decreases x,
    {
        x = x / 2;
    }
    x == 1
}

// ---------------------------------------------------------------------
// Rounding
// ---------------------------------------------------------------------

proof fn lemma_round_half_even(a: nat, b: nat)
    requires
        b > 0,
    ensures
        2 * b * round_half_even(a, b) <= 2 * a + b,
        2 * a <= 2 * b * round_half_even(a, b) + b,
        a <= b * (a / b) + b,
        a % b == 0 ==> round_half_even(a, b) == a / b,
{
    let q = (a / b) as int;
    let r = (a % b) as int;
    vstd::arithmetic::div_mod::lemma_fundamental_div_mod(a as int, b as int);
    let bb = b as int;
    assert(2 * bb * q == 2 * (bb * q)) by (nonlinear_arith);
    assert(2 * bb * (q + 1) == 2 * (bb * q) + 2 * bb) by (nonlinear_arith);
}

proof fn lemma_unit_from(x: nat, u: nat)
    requires
        u >= 1,
        u == 1 || u * LEAD <= x,
    ensures
        ({
            let v = unit_from(x, u);
            &&& v >= 1
            &&& x < v * (2 * LEAD)
            &&& v == 1 || v * LEAD <= x
        }),
    decreases 2 * x - u,
{
    if x < u * (2 * LEAD) {
    } else if x <= u {
        assert(false) by (nonlinear_arith)
            requires
                x <= u,
                x >= u * (2 * LEAD),
                u >= 1,
                LEAD >= 1,
        ;
    } else {
        assert((2 * u) * LEAD == u * (2 * LEAD)) by (nonlinear_arith);
        lemma_unit_from(x, 2 * u);
    }
}

/// Rounding to 53 bits changes a number by at most one part in `2^53`, and
/// does not cross an integer below `2^53`.
proof fn lemma_rounded(x: nat)
    ensures
        2 * LEAD * rounded(x) <= (2 * LEAD + 1) * x,
        forall|m: nat| #![trigger m * LEAD] m < 2 * LEAD && m * LEAD <= x ==> m * LEAD <= rounded(x),
{
    let u = unit_of(x);
    lemma_unit_from(x, 1);
    lemma_round_half_even(x, u);
    let k = round_half_even(x, u);
    let ku = k * u;
    assert(2 * u * k == 2 * ku) by (nonlinear_arith)
        requires
            ku == k * u,
    ;
    if u == 1 {
        assert(x % 1 == 0);
        assert(k == x);
        assert(ku == x) by (nonlinear_arith)
            requires
                ku == k * u,
                u == 1,
                k == x,
        ;
        assert((2 * LEAD + 1) * x == 2 * LEAD * x + x) by (nonlinear_arith);
    } else {
        let l = LEAD as int;
        let xi = x as int;
        let ui = u as int;
        let kui = ku as int;
        assert(2 * l * kui <= (2 * l + 1) * xi) by (nonlinear_arith)
            requires
                2 * kui <= 2 * xi + ui,
                ui * l <= xi,
                l >= 1,
        ;
    }
    assert forall|m: nat| #![trigger m * LEAD] m < 2 * LEAD && m * LEAD <= x implies m * LEAD <= ku by {
        lemma_rounded_keeps(x, m);
    }
}

/// An integer below `2^53` times `2^52` is not crossed by rounding.
proof fn lemma_rounded_keeps(x: nat, m: nat)
    requires
        m < 2 * LEAD,
        m * LEAD <= x,
    ensures
        m * LEAD <= rounded(x),
{
    let u = unit_of(x);
    lemma_unit_from(x, 1);
    lemma_unit_power(x, 1);
    lemma_round_half_even(x, u);
    let q = x / u;
    let k = round_half_even(x, u);
    vstd::arithmetic::div_mod::lemma_fundamental_div_mod(x as int, u as int);
    assert(k >= q);
    if u <= LEAD {
        // The integer is a multiple of the unit.
        lemma_power_divides(u, LEAD as nat);
        let c = LEAD as nat / u;
        assert(m * LEAD == (m * c) * u) by (nonlinear_arith)
            requires
                LEAD == u * c,
        ;
        assert(m * c <= q) by (nonlinear_arith)
            requires
                (m * c) * u <= x,
                x == u * q + x % u,
                x % u < u,
                u >= 1,
        ;
        assert((m * c) * u <= k * u) by (nonlinear_arith)
            requires
                m * c <= k,
                u >= 1,
        ;
    } else {
        // Then x is at least 2^53 times 2^52, and so is what it rounds to.
        lemma_lead_power();
        lemma_powers_apart(LEAD as nat, u);
        assert(q >= LEAD) by (nonlinear_arith)
            requires
                u * LEAD <= x,
                x == u * q + x % u,
                x % u < u,
                u >= 1,
        ;
        assert(k * u >= m * LEAD) by (nonlinear_arith)
            requires
                k >= LEAD,
                u >= 2 * LEAD,
                m < 2 * LEAD,
        ;
    }
}

proof fn lemma_unit_power(x: nat, u: nat)
    requires
        is_power_of_two(u),
    ensures
        is_power_of_two(unit_from(x, u)),
    decreases 2 * x - u,
{
    lemma_double_power(u);
    if !(x < u * (2 * LEAD) || u == 0 || x <= u) {
        lemma_unit_power(x, 2 * u);
    } else {
        assert(is_power_of_two(1));
    }
}

proof fn lemma_lead_power()
    ensures
        is_power_of_two(LEAD as nat),
{
    reveal_with_fuel(is_power_of_two, 54);
}

/// A smaller power of two divides a larger one.
proof fn lemma_power_divides(a: nat, b: nat)
    requires
        is_power_of_two(a),
        b == LEAD,
        a <= b,
    ensures
        b == a * (b / a),
{
    lemma_lead_power();
    lemma_power_divides_gen(a, b);
}

proof fn lemma_power_divides_gen(a: nat, b: nat)
    requires
        is_power_of_two(a),
        is_power_of_two(b),
        a <= b,
    ensures
        b == a * (b / a),
    decreases b,
{
    lemma_double_power(a);
    if a == 1 {
        assert(b / 1 == b);
    } else {
        lemma_power_divides_gen(a / 2, b / 2);
        let a2 = a / 2;
        let b2 = b / 2;
        let c = b2 / a2;
        assert(b == a * c) by (nonlinear_arith)
            requires
                b2 == a2 * c,
                a == 2 * a2,
                b == 2 * b2,
        ;
        vstd::arithmetic::div_mod::lemma_div_multiples_vanish(c as int, a as int);
    }
}

// ---------------------------------------------------------------------
// Scaled tables
// ---------------------------------------------------------------------

/// The ratio of the totals as a double lies between 1 and 2 and is close to
/// the quotient.
proof fn lemma_ratio(from: nat, to: nat)
    requires
        scales(from, to),
    ensures
        LEAD < ratio(from, to) < 2 * LEAD,
        2 * from * ratio(from, to) <= 2 * to * LEAD + from,
{
    let a = to * LEAD as nat;
    lemma_round_half_even(a, from);
    let m = ratio(from, to) as int;
    let f = from as int;
    let t = to as int;
    let l = LEAD as int;
    assert(2 * (t * l) == 2 * t * l) by (nonlinear_arith);
    assert(l < m) by (nonlinear_arith)
        requires
            2 * (t * l) <= 2 * f * m + f,
            t >= f + 1,
            0 < f <= 0x8000_0000,
            l == 0x10_0000_0000_0000,
    ;
    assert(m < 2 * l) by (nonlinear_arith)
        requires
            2 * f * m <= 2 * (t * l) + f,
            t <= 2 * f - 1,
            0 < f <= 0x8000_0000,
            l == 0x10_0000_0000_0000,
    ;
}

/// A frequency never shrinks, and grows by no more than its share.
pub proof fn lemma_scaled(f: nat, from: nat, to: nat)
    requires
        scales(from, to),
        f <= from,
    ensures
        f <= scaled(f, from, to) <= to,
        scaled(f, from, to) * (LEAD * (2 * LEAD)) <= (2 * LEAD + 1) * (f * ratio(from, to)),
        f == 0 ==> scaled(f, from, to) == 0,
{
    let m = ratio(from, to);
    let x = f * m;
    let y = rounded(x);
    let s = scaled(f, from, to);
    let l = LEAD as int;
    lemma_ratio(from, to);
    lemma_rounded(x);
    assert(f * LEAD <= x) by (nonlinear_arith)
        requires
            x == f * m,
            m >= LEAD,
    ;
    assert(f < 2 * LEAD);
    assert(f * LEAD <= y);
    vstd::arithmetic::div_mod::lemma_fundamental_div_mod(y as int, l);
    assert(f <= s) by (nonlinear_arith)
        requires
            f * l <= y,
            y == l * s + y as int % l,
            y as int % l < l,
            l > 0,
    ;
    assert(s * (l * (2 * l)) <= (2 * l + 1) * x) by (nonlinear_arith)
        requires
            l * s <= y,
            2 * l * y <= (2 * l + 1) * x,
            l > 0,
    ;
    assert(x <= from * m) by (nonlinear_arith)
        requires
            x == f * m,
            f <= from,
    ;
    lemma_scaled_total(s as int, x as int, from as int, to as int, m as int);
    if f == 0 {
        assert(x == 0);
        lemma_unit_from(0, 1);
        assert(unit_of(0) == 1);
        assert(0nat / 1nat == 0 && 0nat % 1nat == 0);
        assert(round_half_even(0, unit_of(0)) * unit_of(0) == 0) by (nonlinear_arith)
            requires
                round_half_even(0, unit_of(0)) == 0,
        ;
        assert(y == 0);
    }
}

/// What follows from a bound on one or on the sum of all scaled frequencies.
proof fn lemma_scaled_total(s: int, x: int, from: int, to: int, m: int)
    requires
        scales(from as nat, to as nat),
        0 < from,
        0 < to,
        s >= 0,
        s * (LEAD * (2 * LEAD)) <= (2 * LEAD + 1) * x,
        x <= from * m,
        2 * from * m <= 2 * to * LEAD + from,
    ensures
        s <= to,
{
    let l = LEAD as int;
    let b = 2 * (l * (2 * l));
    assert((2 * l + 1) * (2 * x) <= (2 * l + 1) * (2 * to * l + from)) by (nonlinear_arith)
        requires
            x <= from * m,
            2 * from * m <= 2 * to * l + from,
            l > 0,
    ;
    assert((2 * l + 1) * (2 * to * l + from) == to * b + 2 * to * l + 2 * l * from + from)
        by (nonlinear_arith)
        requires
            b == 2 * (l * (2 * l)),
    ;
    assert(s * b == 2 * (s * (l * (2 * l)))) by (nonlinear_arith)
        requires
            b == 2 * (l * (2 * l)),
    ;
    assert((2 * l + 1) * (2 * x) == 2 * ((2 * l + 1) * x)) by (nonlinear_arith);
    assert(2 * to * l + 2 * l * from + from < b) by (nonlinear_arith)
        requires
            0 < from <= 0x8000_0000,
            0 < to <= 0x8000_0000,
            l == 0x10_0000_0000_0000,
            b == 2 * (l * (2 * l)),
    ;
    assert(s <= to) by (nonlinear_arith)
        requires
            s * b < to * b + b,
            b > 0,
    ;
}

proof fn lemma_scaled_sum(f: Seq<u32>, from: nat, to: nat, n: int)
    requires
        scales(from, to),
        f.len() == 256,
        0 <= n <= 256,
        forall|i: int| 0 <= i < 256 ==> #[trigger] f[i] <= from,
    ensures
        interval::cum(scaled_table(f, from, to), n) * (LEAD * (2 * LEAD)) <= (2 * LEAD + 1) * (
        interval::cum(f, n) * ratio(from, to)),
    decreases n,
{
    if n > 0 {
        lemma_scaled_sum(f, from, to, n - 1);
        let i = n - 1;
        lemma_scaled(f[i] as nat, from, to);
        let g = scaled_table(f, from, to);
        assert(g[i] == scaled(f[i] as nat, from, to));
        let b = LEAD * (2 * LEAD);
        let c = 2 * LEAD + 1;
        let a0 = interval::cum(g, i);
        let a1 = g[i] as int;
        let f0 = interval::cum(f, i);
        let f1 = f[i] as int;
        let m = ratio(from, to) as int;
        assert((a0 + a1) * b == a0 * b + a1 * b) by (nonlinear_arith);
        assert(c * ((f0 + f1) * m) == c * (f0 * m) + c * (f1 * m)) by (nonlinear_arith);
    }
}

/// The scaled frequencies sum to at most the new total.
pub proof fn lemma_scaled_mass(f: Seq<u32>, to: nat)
    requires
        f.len() == 256,
        scales(interval::mass(f) as nat, to),
        interval::mass(f) > 0,
    ensures
        interval::mass(scaled_table(f, interval::mass(f) as nat, to)) <= to,
{
    let from = interval::mass(f) as nat;
    lemma_entries_below_mass(f);
    lemma_scaled_sum(f, from, to, 256);
    lemma_ratio(from, to);
    interval::lemma_cum_monotone(scaled_table(f, from, to), 0, 256);
    lemma_scaled_total(
        interval::mass(scaled_table(f, from, to)),
        (from * ratio(from, to)) as int,
        from as int,
        to as int,
        ratio(from, to) as int,
    );
}

/// No frequency exceeds the sum of all.
pub proof fn lemma_entries_below_mass(f: Seq<u32>)
    requires
        f.len() == 256,
    ensures
        forall|i: int| 0 <= i < 256 ==> #[trigger] f[i] <= interval::mass(f),
{
    assert forall|i: int| 0 <= i < 256 implies #[trigger] f[i] <= interval::mass(f) by {
        interval::lemma_cum_monotone(f, i + 1, 256);
        interval::lemma_cum_monotone(f, 0, i);
    }
}

/// `a / b` rounded to the nearest integer, ties to even.
fn round_nearest(a: u128, b: u128) -> (r: u128)
    requires
        b > 0,
        a < 0x2000_0000_0000_0000_0000_0000_0000_0000,
    ensures
        r == round_half_even(a as nat, b as nat),
        r <= a + 1,
{
    let q: u128 = a / b;
    let r: u128 = a % b;
    proof {
        vstd::arithmetic::div_mod::lemma_fundamental_div_mod(a as int, b as int);
        vstd::arithmetic::div_mod::lemma_div_nonincreasing(a as int, b as int);
        assert(q <= a);
        assert(r < b);
        assert(q == a as nat / b as nat && r == a as nat % b as nat);
        assert(q >= 1 && b >= 2 ==> q < a) by (nonlinear_arith)
            requires
                a == b * q + r,
                r >= 0,
        ;
    }
    if r < b - r {
        q
    } else if r > b - r {
        q + 1
    } else {
        q + q % 2
    }
}

/// The double nearest to `to / from`, in units of `2^-52`.
pub(crate) fn double_ratio(from: u32, to: u32) -> (r: u64)
    requires
        scales(from as nat, to as nat),
    ensures
        r == ratio(from as nat, to as nat),
{
    proof {
        lemma_ratio(from as nat, to as nat);
        assert(to * LEAD < 0x2000_0000_0000_0000_0000_0000_0000_0000) by (nonlinear_arith)
            requires
                to <= 0x8000_0000,
                LEAD == 0x10_0000_0000_0000,
        ;
    }
    round_nearest(to as u128 * LEAD as u128, from as u128) as u64
}

/// The double product of `f` and the double `m`, truncated.
pub(crate) fn scale_by(f: u32, m: u64, Ghost(from): Ghost<nat>, Ghost(to): Ghost<nat>) -> (r: u32)
    requires
        scales(from, to),
        f <= from,
        m == ratio(from, to),
    ensures
        r == scaled(f as nat, from, to),
{
    proof {
        lemma_ratio(from, to);
        lemma_scaled(f as nat, from, to);
        assert(f * m < 0x100_0000_0000_0000_0000_0000) by (nonlinear_arith)
            requires
                f <= 0xffff_ffff,
                m < 0x20_0000_0000_0000,
        ;
    }
    let x: u128 = f as u128 * m as u128;
    let mut unit: u128 = 1;
    while x / unit >= 0x20_0000_0000_0000
        invariant
            unit >= 1,
            x < 0x100_0000_0000_0000_0000_0000,
            unit <= 0x100_0000_0000_0000_0000_0000,
            unit_from(x as nat, unit as nat) == unit_of(x as nat),
        decreases 0x200_0000_0000_0000_0000_0000 - unit,
    {
        proof {
            let q = x as int / unit as int;
            vstd::arithmetic::div_mod::lemma_fundamental_div_mod(x as int, unit as int);
            assert(x >= unit * (2 * LEAD)) by (nonlinear_arith)
                requires
                    x == unit * q + x as int % unit as int,
                    x as int % unit as int >= 0,
                    q >= 2 * LEAD,
                    unit >= 1,
            ;
            assert(unit * (2 * LEAD) >= 2 * unit) by (nonlinear_arith)
                requires
                    LEAD >= 1,
                    unit >= 1,
            ;
        }
        unit = unit * 2;
    }
    proof {
        let q = x as int / unit as int;
        vstd::arithmetic::div_mod::lemma_fundamental_div_mod(x as int, unit as int);
        assert(x < unit * (2 * LEAD)) by (nonlinear_arith)
            requires
                x == unit * q + x as int % unit as int,
                x as int % (unit as int) < unit,
                q + 1 <= 2 * LEAD,
                unit >= 1,
        ;
        assert(unit == unit_of(x as nat));
        lemma_rounded(x as nat);
        lemma_unit_from(x as nat, 1);
    }
    let k: u128 = round_nearest(x, unit);
    proof {
        assert(rounded(x as nat) == k * unit);
        assert(k * unit <= 0x1000_0000_0000_0000_0000_0000_0000_0000) by {
            let y = rounded(x as nat) as int;
            assert(y <= 2 * x) by (nonlinear_arith)
                requires
                    2 * LEAD * y <= (2 * LEAD + 1) * x,
                    LEAD >= 1,
                    x >= 0,
                    LEAD == 0x10_0000_0000_0000,
            ;
        }
    }
    (k * unit / LEAD as u128) as u32
}

// ---------------------------------------------------------------------
// What the doubles hold
// ---------------------------------------------------------------------

/// A power of two by its exponent.
pub proof fn lemma_exponent(n: nat) -> (k: nat)
    requires
        is_power_of_two(n),
    ensures
        n == pow2(k),
    decreases n,
{
    vstd::arithmetic::power2::lemma2_to64();
    if n <= 1 {
        0
    } else {
        let k = lemma_exponent(n / 2);
        vstd::arithmetic::power2::lemma_pow2_unfold(k + 1);
        k + 1
    }
}

/// The total that a table is brought to is the least power of two that is
/// not below its own.
pub proof fn law_target_total(n: nat, k: nat)
    requires
        n >= 1,
    ensures
        n <= ceil_pow2(n) < 2 * n,
        exists|j: nat| ceil_pow2(n) == #[trigger] pow2(j),
        pow2(k) >= n ==> pow2(k) >= ceil_pow2(n),
{
    lemma_ceil_pow2(n);
    let j = lemma_exponent(ceil_pow2(n));
    assert(ceil_pow2(n) == pow2(j));
    if pow2(k) >= n && pow2(k) < pow2(j) {
        if k >= j {
            if k > j {
                vstd::arithmetic::power2::lemma_pow2_strictly_increases(j, k);
            }
        } else {
            if k + 1 < j {
                vstd::arithmetic::power2::lemma_pow2_strictly_increases(k + 1, j);
            }
            vstd::arithmetic::power2::lemma_pow2_unfold(k + 1);
        }
    }
}

/// `y` is a multiple of `u` nearest to `x`, and an even one where two are as
/// near.
pub open spec fn is_nearest(y: nat, x: nat, u: nat) -> bool {
    &&& y % u == 0
    &&& 2 * x <= 2 * y + u
    &&& 2 * y <= 2 * x + u
    &&& 2 * x == 2 * y + u || 2 * y == 2 * x + u ==> (y / u) % 2 == 0
}

proof fn lemma_nearest(a: nat, b: nat)
    requires
        b > 0,
    ensures
        is_nearest(round_half_even(a, b) * b, a, b),
{
    let q = a / b;
    let r = a % b;
    let v = round_half_even(a, b);
    vstd::arithmetic::div_mod::lemma_fundamental_div_mod(a as int, b as int);
    assert((v * b) % b == 0) by {
        vstd::arithmetic::div_mod::lemma_mod_multiples_basic(v as int, b as int);
    }
    assert((v * b) / b == v) by {
        vstd::arithmetic::div_mod::lemma_div_multiples_vanish(v as int, b as int);
        assert(v * b == b * v) by (nonlinear_arith);
    }
    assert(q * b == b * q) by (nonlinear_arith);
    assert((q + 1) * b == b * q + b) by (nonlinear_arith);
}

/// A frequency is scaled in double precision. The factor is the double
/// nearest to `to / from`, which has 52 bits behind the point. The product is
/// rounded to 53 significant bits, and its integer part is what stays.
pub proof fn law_scaled_frequency(f: nat, from: nat, to: nat)
    requires
        from > 0,
    ensures
        ({
            let factor = ratio(from, to);
            let product = f * factor;
            let unit = unit_of(product);
            &&& is_nearest(factor * from, to * 0x10_0000_0000_0000, from)
            &&& exists|k: nat| unit == #[trigger] pow2(k)
            &&& product < unit * 0x20_0000_0000_0000
            &&& unit == 1 || unit * 0x10_0000_0000_0000 <= product
            &&& is_nearest(rounded(product), product, unit)
            &&& scaled(f, from, to) == rounded(product) / 0x10_0000_0000_0000
        }),
{
    let factor = ratio(from, to);
    let product = f * factor;
    let unit = unit_of(product);
    lemma_nearest(to * LEAD as nat, from);
    lemma_unit_from(product, 1);
    assert(is_power_of_two(1));
    lemma_unit_power(product, 1);
    let k = lemma_exponent(unit);
    assert(unit == pow2(k));
    lemma_nearest(product, unit);
}

/// Every frequency of a table is scaled alone.
pub proof fn law_scaled_table(f: Seq<u32>, from: nat, to: nat, s: int)
    requires
        0 <= s < 256,
    ensures
        scaled_table(f, from, to).len() == 256,
        scaled_table(f, from, to)[s] == scaled(f[s] as nat, from, to) as u32,
{
}

} // verus!
