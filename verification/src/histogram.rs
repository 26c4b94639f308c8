//! Symbol counts, and tables that fit the modern range coder.

use crate::interval;
use crate::model;
use crate::scaling;
use vstd::prelude::*;

verus! {

/// Largest total for which every symbol in use keeps a share of every
/// reachable range.
pub const MAX_MODERN_TOTAL: u32 = 0x0080_0000;

/// How often `v` occurs in `p`.
pub open spec fn count(p: Seq<u8>, v: int) -> nat
    decreases p.len(),
{
    if p.len() == 0 {
        0
    } else {
        count(p.drop_last(), v) + if p.last() == v {
            1nat
        } else {
            0nat
        }
    }
}

/// How often each symbol occurs, up to the largest 32-bit number.
pub open spec fn histogram(p: Seq<u8>) -> Seq<u32> {
    Seq::new(
        256,
        |v: int|
            if count(p, v) <= u32::MAX {
                count(p, v) as u32
            } else {
                u32::MAX
            },
    )
}

/// All samples have the same value.
pub open spec fn uniform(p: Seq<u8>) -> bool {
    forall|i: int| 0 <= i < p.len() ==> #[trigger] p[i] == p[0]
}

/// The shares of a table in a total of `cap`, rounded down but never to
/// zero.
pub open spec fn shares(f: Seq<u32>, cap: int) -> Seq<u32> {
    Seq::new(
        256,
        |s: int|
            if f[s] == 0 {
                0u32
            } else if (f[s] * cap) / interval::mass(f) < 1 {
                1u32
            } else {
                ((f[s] * cap) / interval::mass(f)) as u32
            },
    )
}

/// The first of the largest entries among the first `n >= 1`.
pub open spec fn largest(g: Seq<u32>, n: int) -> int
    decreases n,
{
    if n <= 1 {
        0
    } else if g[n - 1] > g[largest(g, n - 1)] {
        n - 1
    } else {
        largest(g, n - 1)
    }
}

/// A table with units taken from its largest entry, one at a time, until
/// its total is at most `cap` or no entry is above one.
pub open spec fn trimmed(g: Seq<u32>, cap: int) -> Seq<u32>
    decreases interval::mass(g),
{
    let v = largest(g, 256);
    proof {
        lemma_trim_step(g);
    }
    if interval::mass(g) <= cap || g.len() != 256 || g[v] <= 1 {
        g
    } else {
        trimmed(g.update(v, (g[v] - 1) as u32), cap)
    }
}

/// A table brought to a total of at most `cap` with the same symbols in use.
pub open spec fn capped(f: Seq<u32>, cap: int) -> Seq<u32> {
    if interval::mass(f) <= cap {
        f
    } else {
        trimmed(shares(f, cap), cap)
    }
}

pub proof fn lemma_largest(g: Seq<u32>, n: int)
    requires
        n >= 1,
    ensures
        0 <= largest(g, n) < n,
        forall|i: int| 0 <= i < n ==> #[trigger] g[i] <= g[largest(g, n)],
    decreases n,
{
    if n > 1 {
        lemma_largest(g, n - 1);
    }
}

pub proof fn lemma_trim_step(g: Seq<u32>)
    ensures
        g.len() == 256 && g[largest(g, 256)] > 1 ==> 0 <= interval::mass(
            g.update(largest(g, 256), (g[largest(g, 256)] - 1) as u32),
        ) < interval::mass(g),
{
    let v = largest(g, 256);
    lemma_largest(g, 256);
    if g.len() == 256 && g[v] > 1 {
        let h = g.update(v, (g[v] - 1) as u32);
        interval::lemma_cum_update(g, v, (g[v] - 1) as u32, 256);
        interval::lemma_cum_monotone(h, 0, 256);
    }
}

/// Where no entry is above one, the total is the number of entries in use.
proof fn lemma_unit_mass(g: Seq<u32>, s: int)
    requires
        0 <= s <= 256,
        forall|i: int| 0 <= i < 256 ==> #[trigger] g[i] <= 1,
    ensures
        interval::cum(g, s) == model::in_use(g, s),
    decreases s,
{
    if s > 0 {
        lemma_unit_mass(g, s - 1);
    }
}

proof fn lemma_in_use_same(g: Seq<u32>, h: Seq<u32>, s: int)
    requires
        forall|i: int| 0 <= i < s ==> (#[trigger] g[i] > 0 <==> h[i] > 0),
    ensures
        model::in_use(g, s) == model::in_use(h, s),
    decreases s,
{
    if s > 0 {
        lemma_in_use_same(g, h, s - 1);
    }
}

pub proof fn lemma_in_use_bound(g: Seq<u32>, s: int)
    requires
        0 <= s,
    ensures
        model::in_use(g, s) <= s,
    decreases s,
{
    if s > 0 {
        lemma_in_use_bound(g, s - 1);
    }
}

proof fn lemma_trimmed(g: Seq<u32>, cap: int)
    requires
        g.len() == 256,
        model::in_use(g, 256) <= cap,
    ensures
        trimmed(g, cap).len() == 256,
        interval::mass(trimmed(g, cap)) <= cap,
        forall|s: int| 0 <= s < 256 ==> (#[trigger] trimmed(g, cap)[s] > 0 <==> g[s] > 0),
    decreases interval::mass(g),
{
    let v = largest(g, 256);
    lemma_largest(g, 256);
    lemma_trim_step(g);
    interval::lemma_cum_monotone(g, 0, 256);
    if interval::mass(g) > cap {
        if g[v] <= 1 {
            lemma_unit_mass(g, 256);
        } else {
            let h = g.update(v, (g[v] - 1) as u32);
            lemma_in_use_same(g, h, 256);
            lemma_trimmed(h, cap);
        }
    }
}

/// A capped table has a total of at most the cap, and the same symbols are
/// in use. A table within the cap is not changed.
pub proof fn law_capped(f: Seq<u32>, cap: int)
    requires
        f.len() == 256,
        model::in_use(f, 256) <= cap,
        0 < cap <= u32::MAX,
    ensures
        capped(f, cap).len() == 256,
        interval::mass(capped(f, cap)) <= cap,
        forall|s: int| 0 <= s < 256 ==> (#[trigger] capped(f, cap)[s] > 0 <==> f[s] > 0),
        interval::mass(f) <= cap ==> capped(f, cap) == f,
{
    if interval::mass(f) > cap {
        let g = shares(f, cap);
        assert forall|s: int| 0 <= s < 256 implies (#[trigger] g[s] > 0 <==> f[s] > 0) by {
            lemma_share_bound(f, cap, s);
        }
        lemma_in_use_same(f, g, 256);
        lemma_trimmed(g, cap);
    }
}

proof fn lemma_share_bound(f: Seq<u32>, cap: int, s: int)
    requires
        f.len() == 256,
        0 <= s < 256,
        0 < cap <= u32::MAX,
        interval::mass(f) > 0,
    ensures
        0 <= (f[s] * cap) / interval::mass(f) <= cap,
{
    scaling::lemma_entries_below_mass(f);
    let m = interval::mass(f);
    let x = f[s] * cap;
    assert(0 <= x <= m * cap) by (nonlinear_arith)
        requires
            x == f[s] * cap,
            0 <= f[s] <= m,
            cap > 0,
    ;
    vstd::arithmetic::div_mod::lemma_fundamental_div_mod(x, m);
    let q = x / m;
    assert(q <= cap) by (nonlinear_arith)
        requires
            x == m * q + x % m,
            x % m >= 0,
            x <= m * cap,
            m > 0,
    ;
    vstd::arithmetic::div_mod::lemma_div_pos_is_pos(x, m);
}

/// A symbol that occurs is counted.
pub proof fn lemma_count_positive(p: Seq<u8>, i: int)
    requires
        0 <= i < p.len(),
    ensures
        count(p, p[i] as int) > 0,
    decreases p.len(),
{
    if i < p.len() - 1 {
        assert(p.drop_last()[i] == p[i]);
        lemma_count_positive(p.drop_last(), i);
    }
}

/// Every symbol that occurs is in use in the histogram.
pub proof fn lemma_histogram_positive(p: Seq<u8>)
    ensures
        histogram(p).len() == 256,
        forall|i: int| 0 <= i < p.len() ==> histogram(p)[#[trigger] p[i] as int] > 0,
{
    assert forall|i: int| 0 <= i < p.len() implies histogram(p)[#[trigger] p[i] as int] > 0 by {
        lemma_count_positive(p, i);
    }
}

/// The counts of a plane that 32 bits can count sum to its length.
pub proof fn lemma_histogram_mass(p: Seq<u8>)
    requires
        p.len() <= u32::MAX,
    ensures
        interval::mass(histogram(p)) == p.len(),
    decreases p.len(),
{
    if p.len() == 0 {
        lemma_zero_mass(histogram(p), 256);
    } else {
        let q = p.drop_last();
        let v = p.last() as int;
        lemma_histogram_mass(q);
        lemma_count_bound(q);
        let h = histogram(q);
        assert(histogram(p) =~= h.update(v, (h[v] + 1) as u32));
        interval::lemma_cum_update(h, v, (h[v] + 1) as u32, 256);
    }
}

proof fn lemma_zero_mass(g: Seq<u32>, s: int)
    requires
        forall|i: int| 0 <= i < s ==> #[trigger] g[i] == 0,
    ensures
        interval::cum(g, s) == 0,
    decreases s,
{
    if s > 0 {
        lemma_zero_mass(g, s - 1);
    }
}

pub proof fn lemma_count_bound(p: Seq<u8>)
    ensures
        forall|v: int| #[trigger] count(p, v) <= p.len(),
    decreases p.len(),
{
    if p.len() > 0 {
        lemma_count_bound(p.drop_last());
        assert forall|v: int| #[trigger] count(p, v) <= p.len() by {
            assert(count(p.drop_last(), v) <= p.len() - 1);
        }
    }
}

/// How often each symbol occurs.
pub fn histogram_from_plane(plane: &[u8]) -> (freq: [u32; 256])
    ensures
        freq@ == histogram(plane@),
{
    let mut freq: [u32; 256] = [0u32; 256];
    let mut i: usize = 0;
    assert(freq@ =~= histogram(plane@.take(0)));
    while i < plane.len()
        invariant
            i <= plane@.len(),
            freq@ == histogram(plane@.take(i as int)),
        decreases plane@.len() - i,
    {
        let b: usize = plane[i] as usize;
        let ghost before = freq@;
        if freq[b] < u32::MAX {
            let c: u32 = freq[b];
            freq[b] = c + 1;
        }
        proof {
            let p = plane@.take(i + 1);
            assert(p.drop_last() =~= plane@.take(i as int));
            assert forall|v: int| 0 <= v < 256 implies freq@[v] == histogram(p)[v] by {
                assert(before[v] == histogram(plane@.take(i as int))[v]);
            }
            assert(freq@ =~= histogram(p));
        }
        i = i + 1;
    }
    assert(plane@.take(plane@.len() as int) =~= plane@);
    freq
}

/// Whether all samples have the same value.
pub fn is_uniform(plane: &[u8]) -> (r: bool)
    ensures
        r == uniform(plane@),
{
    let mut i: usize = 0;
    while i < plane.len()
        invariant
            i <= plane@.len(),
            forall|k: int| 0 <= k < i ==> #[trigger] plane@[k] == plane@[0],
        decreases plane@.len() - i,
    {
        if plane[i] != plane[0] {
            return false;
        }
        i = i + 1;
    }
    true
}

/// Bring a table to a total of at most `cap`, keeping the symbols in use.
pub fn rescale_to_max_total(freq: &[u32; 256], cap: u32) -> (out: [u32; 256])
    requires
        model::in_use(freq@, 256) <= cap,
        cap > 0,
    ensures
        out@ == capped(freq@, cap as int),
{
    let ghost f = freq@;
    let mut sum: u64 = 0;
    let mut i: usize = 0;
    while i < 256
        invariant
            i <= 256,
            f == freq@,
            sum == interval::cum(f, i as int),
            sum <= i * 0x1_0000_0000,
        decreases 256 - i,
    {
        sum = sum + freq[i] as u64;
        i = i + 1;
    }
    if sum <= cap as u64 {
        return *freq;
    }
    let mut out: [u32; 256] = [0u32; 256];
    let mut total: u64 = 0;
    let mut s: usize = 0;
    let ghost g = shares(f, cap as int);
    while s < 256
        invariant
            s <= 256,
            f == freq@,
            f.len() == 256,
            cap > 0,
            sum == interval::mass(f),
            sum > 0,
            g == shares(f, cap as int),
            forall|k: int| 0 <= k < s ==> #[trigger] out@[k] == g[k],
            forall|k: int| s <= k < 256 ==> #[trigger] out@[k] == 0,
            total == interval::cum(g, s as int),
            total <= s * 0x1_0000_0000,
        decreases 256 - s,
    {
        if freq[s] != 0 {
            let x: u32 = freq[s];
            proof {
                lemma_share_bound(f, cap as int, s as int);
                assert(x * cap <= 0xffff_ffff * 0xffff_ffff) by (nonlinear_arith)
                    requires
                        0 <= x <= 0xffff_ffff,
                        0 <= cap <= 0xffff_ffff,
                ;
            }
            let share: u64 = x as u64 * cap as u64 / sum;
            let share: u64 = if share < 1 {
                1
            } else {
                share
            };
            out[s] = share as u32;
            total = total + share;
        }
        s = s + 1;
    }
    assert(out@ =~= g);
    proof {
        assert forall|k: int| 0 <= k < 256 implies (#[trigger] g[k] > 0 <==> f[k] > 0) by {
            lemma_share_bound(f, cap as int, k);
        }
        lemma_in_use_same(f, g, 256);
    }
    while total > cap as u64
        invariant
            total == interval::mass(out@),
            model::in_use(out@, 256) <= cap,
            trimmed(out@, cap as int) == trimmed(g, cap as int),
        decreases total,
    {
        let ghost before = out@;
        let mut victim: usize = 0;
        let mut k: usize = 1;
        while k < 256
            invariant
                1 <= k <= 256,
                victim == largest(out@, k as int),
                victim < k,
            decreases 256 - k,
        {
            if out[k] > out[victim] {
                victim = k;
            }
            k = k + 1;
        }
        proof {
            lemma_largest(out@, 256);
            if out@[victim as int] <= 1 {
                lemma_unit_mass(out@, 256);
            }
            interval::lemma_cum_update(before, victim as int, (before[victim as int] - 1) as u32, 256);
        }
        let v: u32 = out[victim];
        out[victim] = v - 1;
        total = total - 1;
        proof {
            lemma_in_use_same(before, out@, 256);
        }
    }
    out
}

/// A histogram holds how often each value occurs, up to the largest number
/// of 32 bits.
pub proof fn law_histogram(p: Seq<u8>, v: u8)
    ensures
        histogram(p).len() == 256,
        histogram(p)[v as int] == if p.to_multiset().count(v) <= u32::MAX {
            p.to_multiset().count(v) as u32
        } else {
            u32::MAX
        },
{
    lemma_count_is_multiplicity(p, v);
}

proof fn lemma_count_is_multiplicity(p: Seq<u8>, v: u8)
    ensures
        count(p, v as int) == p.to_multiset().count(v),
    decreases p.len(),
{
    broadcast use vstd::seq_lib::group_to_multiset_ensures;
    broadcast use vstd::multiset::group_multiset_axioms;

    if p.len() == 0 {
        assert(p =~= Seq::empty());
        assert(p.to_multiset().len() == 0);
    } else {
        let head = p.drop_last();
        lemma_count_is_multiplicity(head, v);
        assert(p =~= head.push(p.last()));
    }
}

/// A table above the cap gives every symbol in use its share of the cap,
/// rounded down but never to zero. What is too much then comes off the first
/// of the largest entries, one by one.
pub proof fn law_capped_table(f: Seq<u32>, cap: int, s: int)
    requires
        f.len() == 256,
        0 < cap <= u32::MAX,
        interval::mass(f) > cap,
        0 <= s < 256,
    ensures
        capped(f, cap) == trimmed(shares(f, cap), cap),
        shares(f, cap).len() == 256,
        f[s] == 0 ==> shares(f, cap)[s] == 0,
        f[s] > 0 ==> shares(f, cap)[s] >= 1,
        f[s] > 0 ==> shares(f, cap)[s] * interval::mass(f) <= f[s] * cap || shares(f, cap)[s] == 1,
        f[s] > 0 ==> (shares(f, cap)[s] + 1) * interval::mass(f) > f[s] * cap,
{
    if f[s] > 0 {
        let m = interval::mass(f);
        let x = f[s] * cap;
        crate::scaling::lemma_entries_below_mass(f);
        assert(0 <= x / m <= cap) by (nonlinear_arith)
            requires
                x == f[s] * cap,
                0 <= f[s] <= m,
                0 < cap,
                0 < m,
        ;
        vstd::arithmetic::div_mod::lemma_fundamental_div_mod(x, m);
        let q = x / m;
        assert(q * m <= x && x < (q + 1) * m) by (nonlinear_arith)
            requires
                x == m * q + x % m,
                0 <= x % m < m,
        ;
        assert((1 + 1) * m > x || q >= 1) by (nonlinear_arith)
            requires
                x < (q + 1) * m,
                q < 1 ==> q <= 0,
                m > 0,
        ;
    }
}

/// Trimming a table: see [`law_capped_table`].
pub proof fn law_trimmed_table(g: Seq<u32>, cap: int, v: int)
    requires
        g.len() == 256,
        0 <= v < 256,
        forall|i: int| 0 <= i < 256 ==> #[trigger] g[i] <= g[v],
        forall|i: int| 0 <= i < v ==> #[trigger] g[i] < g[v],
    ensures
        interval::mass(g) <= cap || g[v] <= 1 ==> trimmed(g, cap) == g,
        interval::mass(g) > cap && g[v] > 1 ==> trimmed(g, cap) == trimmed(
            g.update(v, (g[v] - 1) as u32),
            cap,
        ),
{
    lemma_first_largest(g, 256, v);
}

proof fn lemma_first_largest(g: Seq<u32>, n: int, v: int)
    requires
        0 <= v < n,
        forall|i: int| 0 <= i < n ==> #[trigger] g[i] <= g[v],
        forall|i: int| 0 <= i < v ==> #[trigger] g[i] < g[v],
    ensures
        largest(g, n) == v,
    decreases n,
{
    lemma_largest(g, n);
    if n > 1 {
        lemma_largest(g, n - 1);
        if v < n - 1 {
            lemma_first_largest(g, n - 1, v);
            assert(g[n - 1] <= g[v]);
        } else {
            assert(g[largest(g, n - 1)] < g[v]);
        }
    }
}

} // verus!
