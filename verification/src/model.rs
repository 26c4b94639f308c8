//! Normalisation of a frequency table to a power-of-two total.
//!
//! The table on the wire is a histogram with an arbitrary total. The
//! normalised table sums to the smallest power of two at or above it, so
//! that dividing a range by the total is a shift. Every frequency is scaled
//! in double precision and truncated; what the truncation loses goes back,
//! one unit at a time, to the symbols in use among the first 128.

use crate::error::{Error, Result};
use crate::interval;
use crate::scaling;
use vstd::prelude::*;

verus! {

/// The number of symbols below `s` that are in use.
pub open spec fn in_use(g: Seq<u32>, s: int) -> nat
    decreases s,
{
    if s <= 0 {
        0
    } else {
        in_use(g, s - 1) + if g[s - 1] > 0 {
            1nat
        } else {
            0nat
        }
    }
}

/// What symbol `s` gets when `d` units are dealt, in turn, to the symbols in
/// use among the first 128.
pub open spec fn dealt(g: Seq<u32>, d: nat, s: int) -> nat {
    let k = in_use(g, 128);
    if 0 <= s < 128 && g[s] > 0 {
        d / k + if in_use(g, s) < d % k {
            1nat
        } else {
            0nat
        }
    } else {
        0
    }
}

/// A table with `d` units dealt out.
pub open spec fn topped_up(g: Seq<u32>, d: nat) -> Seq<u32> {
    Seq::new(256, |s: int| (g[s] + dealt(g, d, s)) as u32)
}

/// The normalised form of a table, or why there is none.
pub open spec fn normalized(f: Seq<u32>) -> Result<Seq<u32>> {
    let from = interval::mass(f);
    let to = scaling::ceil_pow2(from as nat);
    let g = scaling::scaled_table(f, from as nat, to);
    let deficit = (to - interval::mass(g)) as nat;
    if from > u32::MAX {
        Err(Error::ProbabilityTableOverflow)
    } else if from == 0 {
        Err(Error::EmptyProbabilityTable)
    } else if from > scaling::MAX_TOTAL {
        Err(Error::ProbabilityTotalExceedsRange)
    } else if from == to {
        Ok(f)
    } else if deficit == 0 {
        Ok(g)
    } else if in_use(g, 128) == 0 {
        Err(Error::ProbabilityTableUnnormalizable)
    } else {
        Ok(topped_up(g, deficit))
    }
}

proof fn lemma_in_use_bound(g: Seq<u32>, s: int)
    requires
        0 <= s,
    ensures
        in_use(g, s) <= s,
    decreases s,
{
    if s > 0 {
        lemma_in_use_bound(g, s - 1);
    }
}

/// No symbol gets more than there is, so that no entry overflows.
proof fn lemma_dealt_bound(g: Seq<u32>, d: nat, s: int)
    requires
        g.len() == 256,
        in_use(g, 128) > 0,
        interval::mass(g) + d <= scaling::MAX_TOTAL,
        0 <= s < 256,
    ensures
        topped_up(g, d)[s] == g[s] + dealt(g, d, s),
        dealt(g, d, s) <= d,
{
    let k = in_use(g, 128) as int;
    scaling::lemma_entries_below_mass(g);
    interval::lemma_cum_monotone(g, 0, 256);
    vstd::arithmetic::div_mod::lemma_fundamental_div_mod(d as int, k);
    let q = d as int / k;
    let r = d as int % k;
    assert(r > 0 ==> q + 1 <= d) by (nonlinear_arith)
        requires
            d == k * q + r,
            k >= 1,
            q >= 0,
            r >= 0,
    ;
    assert(q <= d) by (nonlinear_arith)
        requires
            d == k * q + r,
            k >= 1,
            q >= 0,
            r >= 0,
    ;
}

/// The partial sums of a topped-up table over the first 128 symbols.
proof fn lemma_topped_up_low(g: Seq<u32>, d: nat, s: int)
    requires
        g.len() == 256,
        in_use(g, 128) > 0,
        0 <= s <= 128,
        interval::mass(g) + d <= scaling::MAX_TOTAL,
    ensures
        interval::cum(topped_up(g, d), s) == interval::cum(g, s) + in_use(g, s) * (d / in_use(
            g,
            128,
        )) + if in_use(g, s) <= d % in_use(g, 128) {
            in_use(g, s)
        } else {
            d % in_use(g, 128)
        },
    decreases s,
{
    let k = in_use(g, 128);
    let q = d / k;
    if s == 0 {
        assert(0 * q == 0) by (nonlinear_arith);
    } else {
        lemma_topped_up_low(g, d, s - 1);
        let r = in_use(g, s - 1);
        assert((r + 1) * q == r * q + q) by (nonlinear_arith);
        lemma_dealt_bound(g, d, s - 1);
    }
}

proof fn lemma_topped_up_high(g: Seq<u32>, d: nat, s: int)
    requires
        128 <= s <= 256,
        g.len() == 256,
    ensures
        interval::cum(topped_up(g, d), s) - interval::cum(topped_up(g, d), 128) == interval::cum(
            g,
            s,
        ) - interval::cum(g, 128),
    decreases s,
{
    if s > 128 {
        lemma_topped_up_high(g, d, s - 1);
    }
}

/// Dealing out `d` units raises the total by `d`.
proof fn lemma_topped_up_mass(g: Seq<u32>, d: nat)
    requires
        g.len() == 256,
        in_use(g, 128) > 0,
        interval::mass(g) + d <= scaling::MAX_TOTAL,
    ensures
        interval::mass(topped_up(g, d)) == interval::mass(g) + d,
{
    let k = in_use(g, 128);
    lemma_topped_up_low(g, d, 128);
    lemma_topped_up_high(g, d, 256);
    vstd::arithmetic::div_mod::lemma_fundamental_div_mod(d as int, k as int);
}

/// The normalised table sums to the power of two at or above the total, and
/// the same symbols are in use.
pub proof fn law_normalized(f: Seq<u32>)
    requires
        f.len() == 256,
    ensures
        match normalized(f) {
            Ok(g) => {
                &&& g.len() == 256
                &&& interval::mass(g) == scaling::ceil_pow2(interval::mass(f) as nat)
                &&& scaling::is_power_of_two(interval::mass(g) as nat)
                &&& interval::mass(f) <= interval::mass(g) < 2 * interval::mass(f)
                &&& forall|s: int| 0 <= s < 256 ==> (#[trigger] g[s] > 0 <==> f[s] > 0)
                &&& forall|s: int| 0 <= s < 256 ==> f[s] <= #[trigger] g[s]
            },
            Err(_) => true,
        },
{
    let from = interval::mass(f);
    interval::lemma_cum_monotone(f, 0, 256);
    if 0 < from <= scaling::MAX_TOTAL {
        let to = scaling::ceil_pow2(from as nat);
        scaling::lemma_ceil_pow2(from as nat);
        scaling::lemma_ceil_bound(from as nat);
        if from != to {
            let g = scaling::scaled_table(f, from as nat, to);
            scaling::lemma_entries_below_mass(f);
            scaling::lemma_scaled_mass(f, to);
            interval::lemma_cum_monotone(g, 0, 256);
            assert forall|s: int| 0 <= s < 256 implies f[s] <= #[trigger] g[s] && (g[s] > 0 <==> f[s]
                > 0) by {
                scaling::lemma_scaled(f[s] as nat, from as nat, to);
            }
            let d = (to - interval::mass(g)) as nat;
            if d > 0 && in_use(g, 128) > 0 {
                lemma_topped_up_mass(g, d);
                assert forall|s: int| 0 <= s < 256 implies g[s] <= #[trigger] topped_up(g, d)[s]
                    && (topped_up(g, d)[s] > 0 <==> g[s] > 0) by {
                    lemma_dealt_bound(g, d, s);
                }
            }
        }
    }
}

/// Normalise a frequency table.
pub fn normalize_wire_freq_table(freq: &[u32; 256]) -> (r: Result<[u32; 256]>)
    ensures
        match normalized(freq@) {
            Ok(g) => r is Ok && r->Ok_0@ == g,
            Err(e) => r == Err::<[u32; 256], Error>(e),
        },
{
    let ghost f = freq@;
    let mut total: u32 = 0;
    let mut i: usize = 0;
    while i < 256
        invariant
            i <= 256,
            f == freq@,
            total == interval::cum(f, i as int),
        decreases 256 - i,
    {
        proof {
            interval::lemma_cum_monotone(f, i + 1, 256);
        }
        if freq[i] > u32::MAX - total {
            return Err(Error::ProbabilityTableOverflow);
        }
        total = total + freq[i];
        i = i + 1;
    }
    if total == 0 {
        return Err(Error::EmptyProbabilityTable);
    }
    if total > scaling::MAX_TOTAL {
        return Err(Error::ProbabilityTotalExceedsRange);
    }
    proof {
        scaling::lemma_ceil_pow2(total as nat);
        scaling::lemma_ceil_bound(total as nat);
    }
    let pow2: u32 = scaling::next_pow2(total as u64) as u32;
    if pow2 == total {
        return Ok(*freq);
    }
    let ghost g = scaling::scaled_table(f, total as nat, pow2 as nat);
    let ratio: u64 = scaling::double_ratio(total, pow2);
    let mut out: [u32; 256] = [0u32; 256];
    let mut actual: u32 = 0;
    let mut used: u32 = 0;
    let mut s: usize = 0;
    proof {
        scaling::lemma_entries_below_mass(f);
        scaling::lemma_scaled_mass(f, pow2 as nat);
    }
    while s < 256
        invariant
            s <= 256,
            f == freq@,
            g == scaling::scaled_table(f, total as nat, pow2 as nat),
            scaling::scales(total as nat, pow2 as nat),
            ratio == scaling::ratio(total as nat, pow2 as nat),
            forall|i: int| 0 <= i < 256 ==> #[trigger] f[i] <= total,
            forall|i: int| 0 <= i < s ==> #[trigger] out@[i] == g[i],
            actual == interval::cum(g, s as int),
            interval::mass(g) <= pow2,
            used == in_use(g, if s <= 128 { s as int } else { 128 }),
            used <= 128,
            used <= s,
        decreases 256 - s,
    {
        let v: u32 = scaling::scale_by(freq[s], ratio, Ghost(total as nat), Ghost(pow2 as nat));
        out[s] = v;
        proof {
            assert(g[s as int] == v);
            interval::lemma_cum_monotone(g, s + 1, 256);
        }
        actual = actual + v;
        if s < 128 && v > 0 {
            used = used + 1;
        }
        s = s + 1;
    }
    assert(out@ =~= g);
    let deficit: u32 = pow2 - actual;
    if deficit == 0 {
        return Ok(out);
    }
    if used == 0 {
        return Err(Error::ProbabilityTableUnnormalizable);
    }
    let lap: u32 = deficit / used;
    let extra: u32 = deficit % used;
    let mut turn: u32 = 0;
    let mut k: usize = 0;
    while k < 128
        invariant
            k <= 128,
            g.len() == 256,
            used == in_use(g, 128),
            used > 0,
            interval::mass(g) + deficit <= scaling::MAX_TOTAL,
            lap == deficit as nat / in_use(g, 128),
            extra == deficit as nat % in_use(g, 128),
            turn == in_use(g, k as int),
            turn <= k,
            forall|i: int| 0 <= i < k ==> #[trigger] out@[i] == topped_up(g, deficit as nat)[i],
            forall|i: int| k <= i < 256 ==> #[trigger] out@[i] == g[i],
        decreases 128 - k,
    {
        let v: u32 = out[k];
        proof {
            lemma_dealt_bound(g, deficit as nat, k as int);
            scaling::lemma_entries_below_mass(g);
        }
        if v > 0 {
            let more: u32 = if turn < extra {
                lap + 1
            } else {
                lap
            };
            out[k] = v + more;
            turn = turn + 1;
        }
        k = k + 1;
    }
    assert(out@ =~= topped_up(g, deficit as nat)) by {
        assert forall|i: int| 128 <= i < 256 implies out@[i] == topped_up(g, deficit as nat)[i] by {
        }
    }
    Ok(out)
}

/// Units are dealt one by one to the symbols in use among the first 128, in
/// ascending order, and from the start again after the last of them.
pub proof fn law_dealt_in_turn(g: Seq<u32>, d: nat, s: int)
    requires
        g.len() == 256,
        0 <= s < 128,
        g[s] > 0,
        in_use(g, s) == d % in_use(g, 128),
        interval::mass(g) + d < scaling::MAX_TOTAL,
    ensures
        in_use(g, 0) == 0,
        in_use(g, s + 1) == in_use(g, s) + 1,
        topped_up(g, 0) == g,
        topped_up(g, d + 1) == topped_up(g, d).update(s, (topped_up(g, d)[s] + 1) as u32),
{
    let k = in_use(g, 128);
    lemma_in_use_grows(g, s + 1, 128);
    let a = topped_up(g, d);
    let b = topped_up(g, d + 1);
    scaling::lemma_entries_below_mass(g);
    assert(0nat / k == 0 && 0nat % k == 0) by (nonlinear_arith)
        requires
            k > 0,
    ;
    assert(topped_up(g, 0) =~= g);
    vstd::arithmetic::div_mod::lemma_fundamental_div_mod(d as int, k as int);
    let q = d / k;
    let c = d % k;
    if c + 1 < k {
        vstd::arithmetic::div_mod::lemma_fundamental_div_mod_converse(
            d as int + 1,
            k as int,
            q as int,
            c as int + 1,
        );
    } else {
        assert((q as int + 1) * (k as int) == k * q + k) by (nonlinear_arith);
        vstd::arithmetic::div_mod::lemma_fundamental_div_mod_converse(
            d as int + 1,
            k as int,
            q as int + 1,
            0,
        );
    }
    assert forall|t: int| 0 <= t < 256 implies b[t] == a.update(s, (a[s] + 1) as u32)[t] by {
        assert(g[t] <= interval::mass(g));
        assert(q <= d) by (nonlinear_arith)
            requires
                d == k * q + c,
                k >= 1,
                c >= 0,
        ;
        if 0 <= t < 128 && g[t] > 0 {
            lemma_in_use_grows(g, t + 1, 128);
            if t < s {
                lemma_in_use_grows(g, t + 1, s);
            }
            if s < t {
                lemma_in_use_grows(g, s + 1, t);
            }
        }
    }
    assert(b =~= a.update(s, (a[s] + 1) as u32));
}

proof fn lemma_in_use_grows(g: Seq<u32>, a: int, b: int)
    requires
        0 <= a <= b,
    ensures
        in_use(g, a) <= in_use(g, b),
    decreases b,
{
    if a < b {
        lemma_in_use_grows(g, a, b - 1);
    }
}

/// A table is normalised by scaling it to the next power of two and dealing
/// out what the total then lacks, or is refused.
pub proof fn law_normalized_table(f: Seq<u32>, lacks: nat)
    requires
        f.len() == 256,
    ensures
        ({
            let from = interval::mass(f);
            let to = scaling::ceil_pow2(from as nat);
            let g = scaling::scaled_table(f, from as nat, to);
            &&& from > 0xffff_ffff ==> normalized(f) == Err::<Seq<u32>, Error>(
                Error::ProbabilityTableOverflow,
            )
            &&& from == 0 ==> normalized(f) == Err::<Seq<u32>, Error>(Error::EmptyProbabilityTable)
            &&& 0 < from <= 0x8000_0000 && from == to ==> normalized(f) == Ok::<Seq<u32>, Error>(f)
            &&& 0 < from <= 0x8000_0000 && from != to && interval::mass(g) + lacks == to && lacks
                > 0 && in_use(g, 128) > 0 ==> normalized(f) == Ok::<Seq<u32>, Error>(
                topped_up(g, lacks),
            )
            &&& 0 < from <= 0x8000_0000 && from != to && interval::mass(g) == to ==> normalized(f)
                == Ok::<Seq<u32>, Error>(g)
        }),
{
}

} // verus!
