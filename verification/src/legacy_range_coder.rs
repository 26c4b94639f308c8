//! The range coder of the obsolete RGB frames (type 7).
//!
//! It refills and renormalises as the modern coder does. Its frequency table
//! is written without zero runs, over eight Fibonacci numbers, and is scaled
//! to a power-of-two total before use. The last symbol in use owns the rest
//! of the range above the shares of all symbols.
//!
//! Some streams in the wild were made for a table with a gap of one unit
//! after every symbol. They are recognised by the shape of their table and
//! decoded over the same gaps, in which some symbols cannot be reached.

use crate::bits;
use crate::digits;
use crate::error::{Error, Result};
use crate::fibonacci;
use crate::fibonacci::{BitReader, BitWriter};
use crate::interval;
use crate::interval::{Interval, Window};
use crate::range_coder::RangeEncoder;
use crate::scaling;
use vstd::prelude::*;

verus! {

/// The Fibonacci numbers that the codes of this format can use.
pub const LEGACY_FIB: [u32; 8] = [1, 2, 3, 5, 8, 13, 21, 34];

/// Ranges at or below this threshold are scaled up by a byte.
pub const LEGACY_TOP: u32 = 0x0080_0000;

// ---------------------------------------------------------------------
// Frequency tables on the wire
// ---------------------------------------------------------------------

/// The number that stands for a frequency.
pub open spec fn coded_frequency(f: u32) -> nat {
    if f == u32::MAX {
        u32::MAX as nat
    } else {
        f as nat + 1
    }
}

/// The bits that stand for the frequencies from `j` on.
pub open spec fn table_code(f: Seq<u32>, j: int) -> Seq<bool>
    decreases f.len() - j,
{
    if j < 0 || j >= f.len() {
        Seq::empty()
    } else {
        fibonacci::number_code(coded_frequency(f[j])) + table_code(f, j + 1)
    }
}

/// The bytes that stand for a table.
pub open spec fn table_bytes(f: Seq<u32>) -> Seq<u8> {
    bits::pack(table_code(f, 0))
}

/// The bits of a table fill its last byte.
pub open spec fn table_aligned(f: Seq<u32>) -> bool {
    table_code(f, 0).len() % 8 == 0
}

/// Read frequencies from `p` on until `acc` holds 256 of them. The result
/// is the table and where its bits end.
pub open spec fn read_table(src: Seq<bool>, p: int, acc: Seq<u32>) -> Result<(Seq<u32>, int)>
    decreases 256 - acc.len(),
{
    if acc.len() >= 256 {
        Ok((acc, p))
    } else {
        match fibonacci::read_fib_code(8, src, p) {
            Err(e) => Err(e),
            Ok((v, p1)) => if v > 32 {
                Err(Error::FibonacciOverflow)
            } else {
                match fibonacci::read_suffix(src, p1, (v - 1) as nat) {
                    None => Err(Error::Truncated { context: "Fibonacci prefix bit stream" }),
                    Some(x) => read_table(src, p1 + (v - 1), acc.push((x - 1) as u32)),
                }
            },
        }
    }
}

/// Read one Fibonacci code.
pub fn decode_legacy_length_class(br: &mut BitReader) -> (r: Result<u32>)
    requires
        old(br).wf(),
    ensures
        final(br).wf(),
        final(br).src == old(br).src,
        match fibonacci::read_fib_code(8, old(br).bits(), old(br).position()) {
            Ok((v, p)) => r == Ok::<u32, Error>(v as u32) && final(br).position() == p && 1 <= v
                <= 54,
            Err(e) => r == Err::<u32, Error>(e),
        },
{
    proof {
        fibonacci::lemma_fib_values();
        fibonacci::lemma_read_code_bounds(8, br.bits(), br.position(), 0, 0, false);
    }
    let series: [u32; 8] = LEGACY_FIB;
    br.read_series(series.as_slice())
}

/// Read `m` bits as the number that a one and these bits spell.
pub fn read_legacy_suffix(br: &mut BitReader, m: u32) -> (r: Result<u32>)
    requires
        old(br).wf(),
        m <= 31,
    ensures
        final(br).wf(),
        final(br).src == old(br).src,
        match fibonacci::read_suffix(old(br).bits(), old(br).position(), m as nat) {
            Some(x) => r == Ok::<u32, Error>(x as u32) && final(br).position() == old(
                br,
            ).position() + m && 1 <= x <= u32::MAX,
            None => r == Err::<u32, Error>(
                Error::Truncated { context: "Fibonacci prefix bit stream" },
            ),
        },
{
    proof {
        let p = br.position();
        if p + m <= br.bits().len() {
            fibonacci::lemma_spelled_bound(br.bits().subrange(p, p + m));
            vstd::arithmetic::power2::lemma2_to64();
            vstd::arithmetic::power2::lemma_pow2_pos(m as nat);
            if m < 31 {
                vstd::arithmetic::power2::lemma_pow2_strictly_increases(m as nat + 1, 32);
            }
        }
    }
    br.read_spelled(m)
}

/// Read a table of 256 frequencies from the start of `src`: the table, the
/// number of bytes that it touches, and whether it fills the last of them.
pub fn decode_legacy_freq_table(src: &[u8]) -> (r: Result<([u32; 256], usize, bool)>)
    ensures
        match read_table(bits::unpack(src@), 0, Seq::empty()) {
            Ok((f, p)) => {
                &&& r is Ok
                &&& r->Ok_0.0@ == f
                &&& r->Ok_0.1 == bits::bytes_for(p as nat)
                &&& r->Ok_0.1 <= src@.len()
                &&& r->Ok_0.2 == (p % 8 == 0)
            },
            Err(e) => r == Err::<([u32; 256], usize, bool), Error>(e),
        },
{
    let mut br = BitReader::new(src);
    let mut freq: [u32; 256] = [0u32; 256];
    let mut j: usize = 0;
    let ghost bs = bits::unpack(src@);
    assert(freq@.take(0) =~= Seq::<u32>::empty());
    while j < 256
        invariant
            j <= 256,
            br.wf(),
            br.src@ == src@,
            bs == bits::unpack(src@),
            read_table(bs, 0, Seq::empty()) == read_table(
                bs,
                br.position(),
                freq@.take(j as int),
            ),
        decreases 256 - j,
    {
        let ghost acc = freq@.take(j as int);
        let v: u32 = match decode_legacy_length_class(&mut br) {
            Ok(v) => v,
            Err(e) => {
                return Err(e);
            },
        };
        let m: u32 = v - 1;
        if m > 31 {
            return Err(Error::FibonacciOverflow);
        }
        let x: u32 = match read_legacy_suffix(&mut br, m) {
            Ok(x) => x,
            Err(e) => {
                return Err(e);
            },
        };
        freq[j] = x - 1;
        j = j + 1;
        assert(freq@.take(j as int) =~= acc.push((x - 1) as u32));
    }
    assert(freq@.take(256) =~= freq@);
    let aligned: bool = br.is_byte_aligned();
    Ok((freq, br.bytes_consumed(), aligned))
}

/// The positions of the Fibonacci numbers that sum to `value`, ascending.
pub open spec fn selected(code: Seq<bool>) -> Seq<usize>
    decreases code.len(),
{
    if code.len() == 0 {
        Seq::empty()
    } else if code.last() {
        selected(code.drop_last()).push((code.len() - 1) as usize)
    } else {
        selected(code.drop_last())
    }
}

/// The Zeckendorf representation of `value` as an ascending list of
/// positions in [`LEGACY_FIB`].
pub fn legacy_zeckendorf(value: u32) -> (positions: Vec<usize>)
    requires
        1 <= value <= 54,
    ensures
        positions@ == selected(fibonacci::zeckendorf(8, value as nat)),
{
    let mut code: [bool; 8] = [false; 8];
    let mut remaining: u32 = value;
    let mut k: usize = 8;
    let ghost n = value as nat;
    assert(fibonacci::zeckendorf(8, n) =~= fibonacci::zeckendorf(8, n) + code@.subrange(8, 8));
    while k > 0
        invariant
            k <= 8,
            fibonacci::zeckendorf(8, n) == fibonacci::zeckendorf(k as nat, remaining as nat)
                + code@.subrange(k as int, 8),
        decreases k,
    {
        let ghost code0 = code@;
        let ghost k0 = k as nat;
        let ghost r0 = remaining as nat;
        k = k - 1;
        proof {
            fibonacci::lemma_fib_values();
            assert(LEGACY_FIB@[k as int] == fibonacci::fib(k as nat));
        }
        if LEGACY_FIB[k] <= remaining {
            code[k] = true;
            remaining = remaining - LEGACY_FIB[k];
        } else {
            code[k] = false;
        }
        proof {
            let bit = fibonacci::fib(k as nat) <= r0;
            let rest = fibonacci::zeckendorf(k as nat, remaining as nat);
            assert(fibonacci::zeckendorf(k0, r0) =~= rest.push(bit));
            assert(code@.subrange(k as int, 8) =~= seq![bit] + code0.subrange(k0 as int, 8));
            assert(rest.push(bit) + code0.subrange(k0 as int, 8) =~= rest + code@.subrange(
                k as int,
                8,
            ));
        }
    }
    assert(code@ =~= fibonacci::zeckendorf(8, n));
    let mut positions: Vec<usize> = Vec::new();
    let mut i: usize = 0;
    assert(code@.take(0) =~= Seq::<bool>::empty());
    while i < 8
        invariant
            i <= 8,
            positions@ == selected(code@.take(i as int)),
        decreases 8 - i,
    {
        assert(code@.take(i + 1).drop_last() =~= code@.take(i as int));
        if code[i] {
            positions.push(i);
        }
        i = i + 1;
    }
    assert(code@.take(8) =~= code@);
    positions
}

/// Write a table of 256 frequencies: the bytes, and whether the table fills
/// the last of them.
pub fn encode_legacy_freq_table(freq: &[u32; 256]) -> (r: (Vec<u8>, bool))
    ensures
        r.0@ == table_bytes(freq@),
        r.1 == table_aligned(freq@),
{
    let mut w = BitWriter::new();
    let mut j: usize = 0;
    let ghost f = freq@;
    assert(w@ + table_code(f, 0) =~= table_code(f, 0));
    while j < 256
        invariant
            j <= 256,
            w.wf(),
            f == freq@,
            w@ + table_code(f, j as int) == table_code(f, 0),
        decreases 256 - j,
    {
        let ghost w0 = w@;
        let v: u32 = if freq[j] == u32::MAX {
            u32::MAX
        } else {
            freq[j] + 1
        };
        fibonacci::write_number(&mut w, v);
        proof {
            assert(w@ + table_code(f, j + 1) =~= w0 + table_code(f, j as int));
        }
        j = j + 1;
    }
    assert(w@ + table_code(f, 256) =~= w@);
    let aligned: bool = w.is_byte_aligned();
    (w.finish(), aligned)
}

proof fn lemma_read_table_code(f: Seq<u32>, src: Seq<bool>, p: int, j: int)
    requires
        f.len() == 256,
        forall|i: int| 0 <= i < 256 ==> #[trigger] f[i] < u32::MAX,
        0 <= j <= 256,
        bits::code_at(src, p, table_code(f, j)),
    ensures
        read_table(src, p, f.take(j)) == Ok::<(Seq<u32>, int), Error>(
            (f, p + table_code(f, j).len()),
        ),
    decreases 256 - j,
{
    if j == 256 {
        assert(f.take(256) =~= f);
    } else {
        let v = coded_frequency(f[j]);
        let a = fibonacci::number_code(v);
        let c = table_code(f, j + 1);
        bits::lemma_code_split(src, p, a, c);
        fibonacci::lemma_read_number(8, src, p, v);
        assert(f.take(j).push(f[j]) =~= f.take(j + 1));
        lemma_read_table_code(f, src, p + a.len(), j + 1);
    }
}

/// Reading a written table gives the table back and ends where it ended,
/// whatever follows it.
pub proof fn law_table_round_trip(f: Seq<u32>, tail: Seq<u8>)
    requires
        f.len() == 256,
        forall|i: int| 0 <= i < 256 ==> #[trigger] f[i] < u32::MAX,
    ensures
        match read_table(bits::unpack(table_bytes(f) + tail), 0, Seq::empty()) {
            Ok((g, p)) => {
                &&& g == f
                &&& bits::bytes_for(p as nat) == table_bytes(f).len()
                &&& (p % 8 == 0) == table_aligned(f)
            },
            Err(_) => false,
        },
{
    bits::lemma_packed_prefix(table_code(f, 0), tail);
    assert(f.take(0) =~= Seq::<u32>::empty());
    lemma_read_table_code(f, bits::unpack(table_bytes(f) + tail), 0, 0);
}

// ---------------------------------------------------------------------
// Tables in use
// ---------------------------------------------------------------------

/// When a slot gets its turn: 0, 255, 1, 254, 2, and so on.
pub open spec fn zigzag_rank(s: int) -> int {
    if s < 128 {
        2 * s
    } else {
        2 * (256 - s) - 1
    }
}

/// `d` units handed out to all slots in turn.
pub open spec fn handed_out(g: Seq<u32>, d: nat) -> Seq<u32> {
    Seq::new(
        256,
        |s: int|
            (g[s] + d / 256 + if zigzag_rank(s) < d % 256 {
                1int
            } else {
                0int
            }) as u32,
    )
}

/// A table scaled to the power of two at or above its total. What the
/// truncation loses is handed out again.
pub open spec fn rescaled(f: Seq<u32>) -> Seq<u32> {
    let from = interval::mass(f) as nat;
    let to = scaling::ceil_pow2(from);
    if from == to {
        f
    } else {
        let g = scaling::scaled_table(f, from, to);
        handed_out(g, (to - interval::mass(g)) as nat)
    }
}

/// A table that can be scaled.
pub open spec fn rescalable(f: Seq<u32>) -> bool {
    0 < interval::mass(f) <= scaling::MAX_TOTAL
}

/// The total of a rescaled table.
pub open spec fn rescaled_total(f: Seq<u32>) -> nat {
    scaling::ceil_pow2(interval::mass(f) as nat)
}

/// The slot whose turn comes at `c`.
spec fn zigzag_slot(c: int) -> int {
    if c % 2 == 0 {
        c / 2
    } else {
        256 - (c + 1) / 2
    }
}

proof fn lemma_handed_out_step(g: Seq<u32>, d: nat)
    requires
        g.len() == 256,
        d < 0x8000_0000,
        forall|s: int| 0 <= s < 256 ==> #[trigger] g[s] <= 0x8000_0000,
    ensures
        0 <= zigzag_slot((d % 256) as int) < 256,
        handed_out(g, d)[zigzag_slot((d % 256) as int)] < u32::MAX,
        handed_out(g, d + 1) == handed_out(g, d).update(
            zigzag_slot((d % 256) as int),
            (handed_out(g, d)[zigzag_slot((d % 256) as int)] + 1) as u32,
        ),
{
    let c = (d % 256) as int;
    let k = zigzag_slot(c);
    let a = handed_out(g, d);
    let b = handed_out(g, d + 1);
    assert forall|s: int| 0 <= s < 256 implies b[s] == a.update(k, (a[k] + 1) as u32)[s] by {
        assert(zigzag_rank(s) == c <==> s == k);
        assert(0 <= zigzag_rank(s) < 256);
        if c == 255 {
            assert((d + 1) % 256 == 0 && (d + 1) / 256 == d / 256 + 1);
        } else {
            assert((d + 1) % 256 == c + 1 && (d + 1) / 256 == d / 256);
        }
    }
    assert(b =~= a.update(k, (a[k] + 1) as u32));
}

proof fn lemma_handed_out_mass(g: Seq<u32>, d: nat)
    requires
        g.len() == 256,
        d <= 0x8000_0000,
        forall|s: int| 0 <= s < 256 ==> #[trigger] g[s] <= 0x8000_0000,
    ensures
        interval::mass(handed_out(g, d)) == interval::mass(g) + d,
        forall|s: int| 0 <= s < 256 ==> g[s] <= #[trigger] handed_out(g, d)[s],
    decreases d,
{
    if d == 0 {
        assert forall|s: int| 0 <= s < 256 implies handed_out(g, 0)[s] == g[s] by {
            assert(zigzag_rank(s) >= 0);
        }
        assert(handed_out(g, 0) =~= g);
    } else {
        let e = (d - 1) as nat;
        lemma_handed_out_mass(g, e);
        lemma_handed_out_step(g, e);
        let a = handed_out(g, e);
        let k = zigzag_slot((e % 256) as int);
        interval::lemma_cum_update(a, k, (a[k] + 1) as u32, 256);
    }
}

/// A rescaled table sums to the power of two, and no frequency in it is
/// smaller than before: a symbol in use stays in use.
pub proof fn law_rescaled(f: Seq<u32>)
    requires
        f.len() == 256,
        rescalable(f),
    ensures
        rescaled(f).len() == 256,
        interval::mass(rescaled(f)) == rescaled_total(f),
        scaling::is_power_of_two(rescaled_total(f)),
        interval::mass(f) <= rescaled_total(f) < 2 * interval::mass(f),
        rescaled_total(f) <= scaling::MAX_TOTAL,
        forall|s: int| 0 <= s < 256 ==> f[s] <= #[trigger] rescaled(f)[s],
{
    let from = interval::mass(f) as nat;
    let to = scaling::ceil_pow2(from);
    scaling::lemma_ceil_pow2(from);
    scaling::lemma_ceil_bound(from);
    if from != to {
        let g = scaling::scaled_table(f, from, to);
        scaling::lemma_entries_below_mass(f);
        scaling::lemma_scaled_mass(f, to);
        assert forall|s: int| 0 <= s < 256 implies f[s] <= #[trigger] g[s] <= to by {
            scaling::lemma_scaled(f[s] as nat, from, to);
        }
        interval::lemma_cum_monotone(g, 0, 256);
        lemma_handed_out_mass(g, (to - interval::mass(g)) as nat);
    }
}

/// A table whose total is a power of two is not changed.
pub proof fn law_rescaled_fixed(f: Seq<u32>)
    requires
        scaling::is_power_of_two(interval::mass(f) as nat),
    ensures
        rescaled(f) == f,
{
    scaling::lemma_ceil_of_power(interval::mass(f) as nat);
}

/// The sum of all frequencies.
fn sum_frequencies(freq: &[u32; 256]) -> (r: u64)
    ensures
        r == interval::mass(freq@),
        r <= 0x100_0000_0000,
{
    let mut sum: u64 = 0;
    let mut i: usize = 0;
    while i < 256
        invariant
            i <= 256,
            sum == interval::cum(freq@, i as int),
            sum <= i * 0x1_0000_0000,
        decreases 256 - i,
    {
        sum = sum + freq[i] as u64;
        i = i + 1;
    }
    sum
}

/// Scale a table to the power of two at or above its total: the table and
/// the new total.
pub fn rescale_freq(freq: &[u32; 256]) -> (r: Result<([u32; 256], u32)>)
    ensures
        match r {
            Ok((g, total)) => {
                &&& rescalable(freq@)
                &&& g@ == rescaled(freq@)
                &&& total == rescaled_total(freq@)
            },
            Err(e) => e == Error::EmptyProbabilityTable && !rescalable(freq@),
        },
{
    let sum: u64 = sum_frequencies(freq);
    if sum == 0 {
        return Err(Error::EmptyProbabilityTable);
    }
    let total: u64 = scaling::next_pow2(sum);
    proof {
        interval::lemma_cum_monotone(freq@, 0, 256);
        scaling::lemma_ceil_pow2(sum as nat);
        if sum <= scaling::MAX_TOTAL {
            scaling::lemma_ceil_bound(sum as nat);
        }
    }
    if total > u32::MAX as u64 {
        assert(sum > scaling::MAX_TOTAL);
        return Err(Error::EmptyProbabilityTable);
    }
    proof {
        if sum > scaling::MAX_TOTAL {
            scaling::lemma_max_total_power();
            scaling::lemma_powers_apart(scaling::MAX_TOTAL as nat, total as nat);
        }
        law_rescaled(freq@);
    }
    let total: u32 = total as u32;
    let from: u32 = sum as u32;
    if from == total {
        return Ok((*freq, total));
    }
    let ghost g = scaling::scaled_table(freq@, from as nat, total as nat);
    let ratio: u64 = scaling::double_ratio(from, total);
    let mut new_freq: [u32; 256] = [0u32; 256];
    let mut new_sum: u32 = 0;
    let mut c: usize = 0;
    proof {
        scaling::lemma_entries_below_mass(freq@);
        scaling::lemma_scaled_mass(freq@, total as nat);
    }
    while c < 256
        invariant
            c <= 256,
            g == scaling::scaled_table(freq@, from as nat, total as nat),
            scaling::scales(from as nat, total as nat),
            ratio == scaling::ratio(from as nat, total as nat),
            forall|i: int| 0 <= i < 256 ==> #[trigger] freq@[i] <= from,
            forall|i: int| 0 <= i < c ==> #[trigger] new_freq@[i] == g[i],
            new_sum == interval::cum(g, c as int),
            interval::mass(g) <= total,
        decreases 256 - c,
    {
        let v: u32 = scaling::scale_by(
            freq[c],
            ratio,
            Ghost(from as nat),
            Ghost(total as nat),
        );
        new_freq[c] = v;
        proof {
            assert(g[c as int] == v);
            interval::lemma_cum_monotone(g, c + 1, 256);
        }
        new_sum = new_sum + v;
        c = c + 1;
    }
    assert(new_freq@ =~= g);
    let residue: u32 = total - new_sum;
    let mut d: u32 = 0;
    let mut turn: u32 = 0;
    proof {
        scaling::lemma_entries_below_mass(g);
        lemma_handed_out_mass(g, 0);
        assert(handed_out(g, 0) =~= g) by {
            assert forall|s: int| 0 <= s < 256 implies handed_out(g, 0)[s] == g[s] by {
                assert(zigzag_rank(s) >= 0);
            }
        }
    }
    while d < residue
        invariant
            d <= residue,
            residue <= total <= 0x8000_0000,
            turn == d % 256,
            g.len() == 256,
            forall|s: int| 0 <= s < 256 ==> #[trigger] g[s] <= 0x8000_0000,
            new_freq@ == handed_out(g, d as nat),
        decreases residue - d,
    {
        proof {
            lemma_handed_out_step(g, d as nat);
        }
        let slot: usize = if turn % 2 == 0 {
            (turn / 2) as usize
        } else {
            (256 - (turn + 1) / 2) as usize
        };
        assert(slot == zigzag_slot(turn as int));
        let v: u32 = new_freq[slot];
        new_freq[slot] = v + 1;
        d = d + 1;
        turn = turn + 1;
        if turn == 256 {
            turn = 0;
        }
    }
    Ok((new_freq, total))
}

/// The partial sums of a table.
pub open spec fn flat_cdf(g: Seq<u32>) -> Seq<u32> {
    Seq::new(257, |s: int| interval::cum(g, s) as u32)
}

/// The partial sums of a table with a gap of one unit after every symbol.
pub open spec fn gapped_cdf(g: Seq<u32>) -> Seq<u32> {
    Seq::new(
        513,
        |i: int|
            if i % 2 == 0 {
                (interval::cum(g, i / 2) + i / 2) as u32
            } else {
                (interval::cum(g, i / 2 + 1) + i / 2) as u32
            },
    )
}

/// The partial sums of a rescaled table, and its total.
pub fn build_legacy_cdf(freq: &[u32; 256]) -> (r: Result<(Vec<u32>, u32)>)
    ensures
        match r {
            Ok((cdf, total)) => {
                &&& rescalable(freq@)
                &&& cdf@ == flat_cdf(rescaled(freq@))
                &&& total == rescaled_total(freq@)
            },
            Err(e) => e == Error::EmptyProbabilityTable && !rescalable(freq@),
        },
{
    let (new_freq, total) = match rescale_freq(freq) {
        Ok(x) => x,
        Err(e) => {
            return Err(e);
        },
    };
    proof {
        law_rescaled(freq@);
    }
    let cdf = prefix_sums(&new_freq);
    Ok((cdf, total))
}

/// The partial sums of a table.
pub(crate) fn prefix_sums(g: &[u32; 256]) -> (cdf: Vec<u32>)
    requires
        interval::mass(g@) <= u32::MAX,
    ensures
        cdf@ == flat_cdf(g@),
{
    let mut cdf: Vec<u32> = Vec::with_capacity(257);
    let mut acc: u32 = 0;
    let mut c: usize = 0;
    while c < 256
        invariant
            c <= 256,
            interval::mass(g@) <= u32::MAX,
            acc == interval::cum(g@, c as int),
            cdf@.len() == c,
            forall|i: int| 0 <= i < c ==> #[trigger] cdf@[i] == interval::cum(g@, i),
        decreases 256 - c,
    {
        cdf.push(acc);
        proof {
            interval::lemma_cum_monotone(g@, c + 1, 256);
        }
        acc = acc + g[c];
        c = c + 1;
    }
    cdf.push(acc);
    assert(cdf@ =~= flat_cdf(g@));
    cdf
}

/// The partial sums of a rescaled table with a gap of one unit after every
/// symbol, and the total without the gaps.
pub fn build_legacy_pair_packed_cdf(freq: &[u32; 256]) -> (r: Result<(Vec<u32>, u32)>)
    ensures
        match r {
            Ok((cdf, total)) => {
                &&& rescalable(freq@)
                &&& cdf@ == gapped_cdf(rescaled(freq@))
                &&& total == rescaled_total(freq@)
            },
            Err(e) => e == Error::EmptyProbabilityTable && !rescalable(freq@),
        },
{
    let (new_freq, total) = match rescale_freq(freq) {
        Ok(x) => x,
        Err(e) => {
            return Err(e);
        },
    };
    let ghost g = new_freq@;
    proof {
        law_rescaled(freq@);
    }
    let mut pair: Vec<u32> = Vec::with_capacity(513);
    let mut acc: u32 = 0;
    let mut c: usize = 0;
    while c < 256
        invariant
            c <= 256,
            g == new_freq@,
            interval::mass(g) == total,
            total <= 0x8000_0000,
            acc == interval::cum(g, c as int) + c,
            pair@.len() == 2 * c,
            forall|i: int| 0 <= i < 2 * c ==> #[trigger] pair@[i] == gapped_cdf(g)[i],
        decreases 256 - c,
    {
        proof {
            interval::lemma_cum_monotone(g, c as int, c + 1);
            interval::lemma_cum_monotone(g, c + 1, 256);
            assert((2 * c) % 2 == 0 && (2 * c) / 2 == c as int);
            assert((2 * c + 1) % 2 == 1 && (2 * c + 1) / 2 == c as int);
            assert(gapped_cdf(g)[2 * c] == acc);
            assert(gapped_cdf(g)[2 * c + 1] == acc + g[c as int]);
        }
        pair.push(acc);
        acc = acc + new_freq[c];
        pair.push(acc);
        acc = acc + 1;
        c = c + 1;
    }
    pair.push(acc);
    proof {
        assert(gapped_cdf(g)[512] == acc);
        assert(pair@ =~= gapped_cdf(g));
    }
    Ok((pair, total))
}

/// The number of symbols from 1 up to `n` with frequency 1 or 2.
pub open spec fn rare_symbols(f: Seq<u32>, n: int) -> nat
    decreases n,
{
    if n <= 1 {
        0
    } else {
        rare_symbols(f, n - 1) + if f[n - 1] == 1 || f[n - 1] == 2 {
            1nat
        } else {
            0nat
        }
    }
}

/// Zero makes up at least 95 percent of the table, and at least three other
/// symbols occur once or twice.
pub open spec fn rare_cluster(f: Seq<u32>) -> bool {
    &&& interval::mass(f) > 0
    &&& f[0] * 100 >= interval::mass(f) * 95
    &&& rare_symbols(f, 256) >= 3
}

/// Whether zero dominates a table in which at least three other symbols are
/// rare.
pub fn is_rare_symbol_cluster(freq: &[u32; 256]) -> (r: bool)
    ensures
        r == rare_cluster(freq@),
{
    let total: u64 = sum_frequencies(freq);
    proof {
        interval::lemma_cum_monotone(freq@, 0, 256);
    }
    if total == 0 {
        return false;
    }
    if (freq[0] as u64) * 100 < total * 95 {
        return false;
    }
    let mut count: usize = 0;
    let mut i: usize = 1;
    while i < 256
        invariant
            1 <= i <= 256,
            count < i,
            count == rare_symbols(freq@, i as int),
        decreases 256 - i,
    {
        if freq[i] == 1 || freq[i] == 2 {
            count = count + 1;
        }
        i = i + 1;
    }
    count >= 3
}

// ---------------------------------------------------------------------
// Decoder
// ---------------------------------------------------------------------

/// How the partial sums of a [`LegacyRangeDecoder`] are laid out.
#[derive(Clone, Copy, PartialEq, Eq, Structural)]
pub enum CdfLayout {
    /// Symbol `c` lies between entries `c` and `c + 1` of 257.
    Flat,
    /// Symbol `c` lies between entries `2c` and `2c + 1` of 513, with a gap
    /// of one unit behind it.
    PairPacked,
}

/// The table behind partial sums.
pub open spec fn table_of(cdf: Seq<u32>, layout: CdfLayout) -> Seq<u32> {
    match layout {
        CdfLayout::Flat => Seq::new(256, |c: int| (cdf[c + 1] - cdf[c]) as u32),
        CdfLayout::PairPacked => Seq::new(256, |c: int| (cdf[2 * c + 1] - cdf[2 * c]) as u32),
    }
}

/// `cdf` holds the partial sums of a table with the given total.
pub open spec fn is_cdf(cdf: Seq<u32>, total: u32, layout: CdfLayout) -> bool {
    let g = table_of(cdf, layout);
    &&& interval::mass(g) == total
    &&& match layout {
        CdfLayout::Flat => cdf == flat_cdf(g),
        CdfLayout::PairPacked => cdf == gapped_cdf(g) && total <= scaling::MAX_TOTAL,
    }
}

/// Where symbol `c` starts when every symbol has a gap behind it.
pub open spec fn gapped_low(g: Seq<u32>, c: int) -> int {
    interval::cum(g, c) + c
}

/// Symbol `c` is the last one that starts at or below `target`, with gaps.
pub open spec fn gapped_holds(g: Seq<u32>, c: int, target: int) -> bool {
    &&& 0 <= c < 256
    &&& gapped_low(g, c) <= target
    &&& c == 255 || target < gapped_low(g, c + 1)
}

/// The last symbol that starts at or below `target`, with gaps.
pub open spec fn gapped_symbol(g: Seq<u32>, target: int) -> int {
    choose|c: int| gapped_holds(g, c, target)
}

/// The unit that a target is counted in, and the target itself: never above
/// the last unit.
pub open spec fn target_of(w: Window, total: int, q: int) -> int {
    if w.low / q >= total {
        total - 1
    } else {
        w.low / q
    }
}

/// Take bits from the stream until the range is above the threshold. The
/// offset keeps its low 32 bits.
pub open spec fn refilled_mod(src: Seq<u8>, w: Window) -> Window
    decreases (if w.range <= LEGACY_TOP { LEGACY_TOP + 1 - w.range } else { 0 }),
{
    if 0 < w.range <= LEGACY_TOP {
        refilled_mod(
            src,
            Window {
                low: (256 * w.low) % 0x1_0000_0000 + interval::refill_bits(src, w.cursor),
                range: 256 * w.range,
                cursor: interval::next_cursor(src, w.cursor),
            },
        )
    } else {
        w
    }
}

/// One symbol: what it is, and the window after it. `None` where the total
/// exceeds the range.
pub open spec fn decode_step(src: Seq<u8>, g: Seq<u32>, w: Window) -> Option<(u8, Window)> {
    let total = interval::mass(g);
    let q = w.range / total;
    if q == 0 {
        None
    } else {
        let s = interval::symbol_at(g, target_of(w, total, q));
        Some(
            (
                s as u8,
                refilled_mod(
                    src,
                    Window {
                        low: w.low - interval::share_low(g, w.range, s),
                        range: interval::share_width(g, true, w.range, s),
                        cursor: w.cursor,
                    },
                ),
            ),
        )
    }
}

/// One symbol over gaps. `None` where the total exceeds the range, and where
/// the target falls on a symbol without a share.
pub open spec fn decode_step_gapped(src: Seq<u8>, g: Seq<u32>, w: Window) -> Option<(u8, Window)> {
    let total = interval::mass(g);
    let q = w.range / total;
    if q == 0 {
        None
    } else {
        let c = gapped_symbol(g, target_of(w, total, q));
        let lo = gapped_low(g, c);
        let range = if lo + g[c] == total {
            w.range - lo * q
        } else {
            g[c] * q
        };
        if range == 0 {
            None
        } else {
            Some(
                (
                    c as u8,
                    refilled_mod(
                        src,
                        Window { low: w.low - lo * q, range, cursor: w.cursor },
                    ),
                ),
            )
        }
    }
}

/// One symbol in either layout.
pub open spec fn decode_step_in(
    src: Seq<u8>,
    g: Seq<u32>,
    layout: CdfLayout,
    w: Window,
) -> Option<(u8, Window)> {
    match layout {
        CdfLayout::Flat => decode_step(src, g, w),
        CdfLayout::PairPacked => decode_step_gapped(src, g, w),
    }
}

/// The first `n` symbols of a stream. `None` where one of them cannot be
/// decoded.
pub open spec fn decode_run(src: Seq<u8>, g: Seq<u32>, layout: CdfLayout, n: nat) -> Option<
    (Seq<u8>, Window),
>
    decreases n,
{
    if n == 0 {
        Some((Seq::empty(), interval::opened(src)))
    } else {
        match decode_run(src, g, layout, (n - 1) as nat) {
            None => None,
            Some((head, w)) => match decode_step_in(src, g, layout, w) {
                None => None,
                Some((s, next)) => Some((head.push(s), next)),
            },
        }
    }
}

/// The symbol whose share of the mass holds `target`.
fn cdf_find_symbol(cdf: &[u32], target: u32, Ghost(g): Ghost<Seq<u32>>) -> (s: usize)
    requires
        g.len() == 256,
        cdf@ == flat_cdf(g),
        target < interval::mass(g) <= u32::MAX,
    ensures
        s < 256,
        interval::cum(g, s as int) <= target < interval::cum(g, s + 1),
        s == interval::symbol_at(g, target as int),
{
    let mut lo: usize = 0;
    let mut hi: usize = 256;
    while lo + 1 < hi
        invariant
            lo < hi <= 256,
            g.len() == 256,
            cdf@ == flat_cdf(g),
            interval::mass(g) <= u32::MAX,
            interval::cum(g, lo as int) <= target < interval::cum(g, hi as int),
        decreases hi - lo,
    {
        let mid: usize = (lo + hi) / 2;
        proof {
            interval::lemma_cum_monotone(g, mid as int, 256);
            assert(cdf@[mid as int] == interval::cum(g, mid as int));
        }
        if cdf[mid] <= target {
            lo = mid;
        } else {
            hi = mid;
        }
    }
    proof {
        interval::lemma_symbol_unique(g, target as int, lo as int);
    }
    lo
}

proof fn lemma_gapped_monotone(g: Seq<u32>, a: int, b: int)
    requires
        a <= b,
    ensures
        0 <= interval::cum(g, a),
        gapped_low(g, a) + (b - a) <= gapped_low(g, b),
{
    interval::lemma_cum_monotone(g, a, b);
}

/// The last symbol that starts at or below `target`, with gaps.
fn pair_cdf_find_symbol(pair_cdf: &[u32], target: u32, Ghost(g): Ghost<Seq<u32>>) -> (c: usize)
    requires
        g.len() == 256,
        pair_cdf@ == gapped_cdf(g),
        interval::mass(g) <= scaling::MAX_TOTAL,
    ensures
        c < 256,
        gapped_low(g, c as int) <= target,
        c == gapped_symbol(g, target as int),
{
    let mut lo: usize = 0;
    let mut hi: usize = 256;
    while lo + 1 < hi
        invariant
            lo < hi <= 256,
            g.len() == 256,
            pair_cdf@ == gapped_cdf(g),
            interval::mass(g) <= scaling::MAX_TOTAL,
            gapped_low(g, lo as int) <= target,
            hi < 256 ==> target < gapped_low(g, hi as int),
        decreases hi - lo,
    {
        let mid: usize = (lo + hi) / 2;
        proof {
            interval::lemma_cum_monotone(g, 0, mid as int);
            interval::lemma_cum_monotone(g, mid as int, 256);
            assert((2 * mid) % 2 == 0 && (2 * mid) / 2 == mid as int);
            assert(pair_cdf@[2 * mid] == gapped_low(g, mid as int));
        }
        if pair_cdf[2 * mid] <= target {
            lo = mid;
        } else {
            hi = mid;
        }
    }
    proof {
        let t = target as int;
        let c = gapped_symbol(g, t);
        assert(gapped_holds(g, lo as int, t));
        assert(gapped_holds(g, c, t));
        if c < lo {
            lemma_gapped_monotone(g, c + 1, lo as int);
        } else if lo < c {
            lemma_gapped_monotone(g, lo + 1, c);
        }
    }
    lo
}

/// What a call that decodes a symbol returns, and the window after it.
pub open spec fn decodes(
    src: Seq<u8>,
    g: Seq<u32>,
    layout: CdfLayout,
    before: Window,
    r: Result<u8>,
    after: Window,
) -> bool {
    match decode_step_in(src, g, layout, before) {
        Some((s, w)) => r == Ok::<u8, Error>(s) && after == w,
        None => r == Err::<u8, Error>(Error::EmptyProbabilityTable) && after == before,
    }
}

/// Decoder over a borrowed stream.
pub struct LegacyRangeDecoder<'a> {
    /// The stream.
    pub src: &'a [u8],
    /// The last byte that has been taken into account. Its low bit is still
    /// to be read.
    pub cursor: usize,
    /// Offset of the stream into the current interval.
    pub low: u32,
    /// Width of the current interval.
    pub range: u32,
    /// The partial sums.
    pub cdf: Vec<u32>,
    /// The total of the table, a power of two.
    pub total: u32,
    /// The layout of the partial sums.
    pub layout: CdfLayout,
}

impl<'a> View for LegacyRangeDecoder<'a> {
    type V = Window;

    open spec fn view(&self) -> Window {
        Window { low: self.low as int, range: self.range as int, cursor: self.cursor as int }
    }
}

impl<'a> LegacyRangeDecoder<'a> {
    /// The table behind the partial sums.
    pub open spec fn table(&self) -> Seq<u32> {
        table_of(self.cdf@, self.layout)
    }

    /// The decoder is between two symbols.
    pub open spec fn wf(&self) -> bool {
        &&& LEGACY_TOP < self.range <= interval::INIT_RANGE
        &&& self.cursor <= self.src@.len()
        &&& self.total > 0
        &&& is_cdf(self.cdf@, self.total, self.layout)
    }

    /// Start at the beginning of a stream, over partial sums without gaps.
    pub fn new(body: &'a [u8], cdf: Vec<u32>, total: u32) -> (r: Result<Self>)
        requires
            is_cdf(cdf@, total, CdfLayout::Flat),
        ensures
            opened_as(r, body@, cdf@, total, CdfLayout::Flat),
    {
        Self::new_with_layout(body, cdf, total, CdfLayout::Flat)
    }

    /// Start at the beginning of a stream, over partial sums with gaps.
    pub fn new_pair_packed(body: &'a [u8], pair_cdf: Vec<u32>, total: u32) -> (r: Result<Self>)
        requires
            is_cdf(pair_cdf@, total, CdfLayout::PairPacked),
        ensures
            opened_as(r, body@, pair_cdf@, total, CdfLayout::PairPacked),
    {
        Self::new_with_layout(body, pair_cdf, total, CdfLayout::PairPacked)
    }

    fn new_with_layout(body: &'a [u8], cdf: Vec<u32>, total: u32, layout: CdfLayout) -> (r: Result<
        Self,
    >)
        requires
            is_cdf(cdf@, total, layout),
        ensures
            opened_as(r, body@, cdf@, total, layout),
    {
        if body.len() < 4 {
            return Err(Error::Truncated { context: "legacy range-coder priming bytes" });
        }
        if !scaling::is_pow2(total) {
            return Err(Error::EmptyProbabilityTable);
        }
        let b1: u32 = body[0] as u32;
        let b2: u32 = body[1] as u32;
        let b3: u32 = body[2] as u32;
        let b4: u32 = body[3] as u32;
        let low: u32 = b1 * 0x0080_0000 + b2 * 0x8000 + b3 * 0x80 + b4 / 2;
        proof {
            reveal_with_fuel(digits::padded_value, 5);
        }
        Ok(
            LegacyRangeDecoder {
                src: body,
                cursor: 3,
                low,
                range: 0x8000_0000,
                cdf,
                total,
                layout,
            },
        )
    }

    /// Take bits from the stream until the range is above the threshold.
    fn renormalise(&mut self)
        requires
            0 < old(self).range <= interval::INIT_RANGE,
            old(self).cursor <= old(self).src@.len(),
        ensures
            LEGACY_TOP < final(self).range <= interval::INIT_RANGE,
            final(self).cursor <= final(self).src@.len(),
            final(self).src == old(self).src,
            final(self).cdf == old(self).cdf,
            final(self).total == old(self).total,
            final(self).layout == old(self).layout,
            final(self)@ == refilled_mod(old(self).src@, old(self)@),
    {
        while self.range <= LEGACY_TOP
            invariant
                self.src == old(self).src,
                self.cdf == old(self).cdf,
                self.total == old(self).total,
                self.layout == old(self).layout,
                0 < self.range <= interval::INIT_RANGE,
                self.cursor <= self.src@.len(),
                refilled_mod(self.src@, self@) == refilled_mod(old(self).src@, old(self)@),
            decreases interval::INIT_RANGE - self.range,
        {
            let cursor: usize = self.cursor;
            let len: usize = self.src.len();
            let prev: u32 = if cursor < len {
                self.src[cursor] as u32
            } else {
                0
            };
            let next: u32 = if cursor < len && cursor + 1 < len {
                self.src[cursor + 1] as u32
            } else {
                0
            };
            self.low = (self.low % 0x0100_0000) * 256 + ((prev % 2) * 128 + next / 2);
            self.range = self.range * 256;
            if cursor < len {
                self.cursor = cursor + 1;
            }
        }
    }

    /// The symbol at `index`, and where it starts and ends.
    fn find(&self, index: u32) -> (r: (usize, u32, u32))
        requires
            self.wf(),
            index < self.total,
        ensures
            r.0 < 256,
            r.1 <= index,
            r.1 <= r.2,
            r.2 - r.1 == self.table()[r.0 as int],
            r.2 - r.1 <= self.total,
            match self.layout {
                CdfLayout::Flat => {
                    &&& r.0 == interval::symbol_at(self.table(), index as int)
                    &&& r.1 == interval::cum(self.table(), r.0 as int)
                    &&& r.1 < r.2
                },
                CdfLayout::PairPacked => {
                    &&& r.0 == gapped_symbol(self.table(), index as int)
                    &&& r.1 == gapped_low(self.table(), r.0 as int)
                },
            },
    {
        let ghost g = self.table();
        match self.layout {
            CdfLayout::Flat => {
                let c: usize = cdf_find_symbol(self.cdf.as_slice(), index, Ghost(g));
                proof {
                    lemma_flat_entry(g, c as int);
                }
                (c, self.cdf[c], self.cdf[c + 1])
            },
            CdfLayout::PairPacked => {
                let c: usize = pair_cdf_find_symbol(self.cdf.as_slice(), index, Ghost(g));
                proof {
                    lemma_gapped_entry(g, c as int);
                }
                (c, self.cdf[2 * c], self.cdf[2 * c + 1])
            },
        }
    }

    /// Decode one symbol.
    pub fn decode_byte(&mut self) -> (r: Result<u8>)
        requires
            old(self).wf(),
        ensures
            final(self).wf(),
            final(self).src == old(self).src,
            final(self).cdf == old(self).cdf,
            final(self).total == old(self).total,
            final(self).layout == old(self).layout,
            decodes(
                old(self).src@,
                old(self).table(),
                old(self).layout,
                old(self)@,
                r,
                final(self)@,
            ),
    {
        let q: u32 = self.range / self.total;
        if q == 0 {
            return Err(Error::EmptyProbabilityTable);
        }
        let ghost g = self.table();
        let ghost total = self.total as int;
        let mut index: u32 = self.low / q;
        if index >= self.total {
            index = self.total - 1;
        }
        proof {
            assert(index == target_of(self@, total, q as int));
        }
        let (c, lo, hi) = self.find(index);
        proof {
            lemma_step_bounds(
                self.range as int,
                self.low as int,
                total,
                q as int,
                index as int,
                lo as int,
                hi as int,
            );
        }
        let range: u32 = if hi == self.total {
            self.range - lo * q
        } else {
            (hi - lo) * q
        };
        if range == 0 {
            return Err(Error::EmptyProbabilityTable);
        }
        self.low = self.low - lo * q;
        self.range = range;
        self.renormalise();
        Ok(c as u8)
    }
}

/// The entries of a symbol in partial sums.
proof fn lemma_flat_entry(g: Seq<u32>, c: int)
    requires
        0 <= c < 256,
        interval::mass(g) <= u32::MAX,
    ensures
        flat_cdf(g)[c] == interval::cum(g, c),
        flat_cdf(g)[c + 1] == interval::cum(g, c + 1),
        interval::cum(g, c + 1) == interval::cum(g, c) + g[c],
        0 <= interval::cum(g, c),
        interval::cum(g, c + 1) <= interval::mass(g),
{
    interval::lemma_cum_monotone(g, c + 1, 256);
    interval::lemma_cum_monotone(g, 0, c);
}

/// The entries of a symbol in partial sums with gaps.
proof fn lemma_gapped_entry(g: Seq<u32>, c: int)
    requires
        0 <= c < 256,
        interval::mass(g) <= scaling::MAX_TOTAL,
    ensures
        gapped_cdf(g)[2 * c] == gapped_low(g, c),
        gapped_cdf(g)[2 * c + 1] == gapped_low(g, c) + g[c],
        0 <= interval::cum(g, c),
        interval::cum(g, c) + g[c] <= interval::mass(g),
{
    interval::lemma_cum_monotone(g, c + 1, 256);
    interval::lemma_cum_monotone(g, 0, c);
    assert((2 * c) % 2 == 0 && (2 * c) / 2 == c);
    assert((2 * c + 1) % 2 == 1 && (2 * c + 1) / 2 == c);
}

/// The products of one decoding step stay inside the range.
proof fn lemma_step_bounds(
    range: int,
    low: int,
    total: int,
    q: int,
    index: int,
    lo: int,
    hi: int,
)
    requires
        total > 0,
        range >= 0,
        low >= 0,
        q == range / total,
        q > 0,
        0 <= lo <= index,
        index <= low / q,
        index < total,
        0 <= hi - lo <= total,
    ensures
        0 <= lo * q <= low,
        lo * q < range,
        0 <= (hi - lo) * q <= range,
        hi > lo ==> (hi - lo) * q > 0,
{
    vstd::arithmetic::div_mod::lemma_fundamental_div_mod(range, total);
    vstd::arithmetic::div_mod::lemma_fundamental_div_mod(low, q);
    let t = low / q;
    assert(0 <= lo * q <= low) by (nonlinear_arith)
        requires
            0 <= lo <= t,
            low == q * t + low % q,
            low % q >= 0,
            q > 0,
    ;
    assert(lo * q < range) by (nonlinear_arith)
        requires
            lo < total,
            range == total * q + range % total,
            range % total >= 0,
            q > 0,
    ;
    let width = hi - lo;
    assert(0 <= width * q <= range) by (nonlinear_arith)
        requires
            0 <= width <= total,
            range == total * q + range % total,
            range % total >= 0,
            q > 0,
    ;
    assert(width > 0 ==> width * q > 0) by (nonlinear_arith)
        requires
            q > 0,
    ;
}

/// What opening a stream gives.
pub open spec fn opened_as(
    r: Result<LegacyRangeDecoder<'_>>,
    body: Seq<u8>,
    cdf: Seq<u32>,
    total: u32,
    layout: CdfLayout,
) -> bool {
    match r {
        Ok(d) => {
            &&& body.len() >= 4
            &&& scaling::is_power_of_two(total as nat)
            &&& d.wf()
            &&& d.src@ == body
            &&& d.cdf@ == cdf
            &&& d.total == total
            &&& d.layout == layout
            &&& d@ == interval::opened(body)
        },
        Err(e) => {
            ||| body.len() < 4 && e == (Error::Truncated {
                context: "legacy range-coder priming bytes",
            })
            ||| body.len() >= 4 && !scaling::is_power_of_two(total as nat) && e
                == Error::EmptyProbabilityTable
        },
    }
}

// ---------------------------------------------------------------------
// Encoder
// ---------------------------------------------------------------------

/// Encoder over partial sums without gaps.
pub struct LegacyRangeEncoder {
    /// The interval and the bytes emitted so far.
    pub coder: RangeEncoder,
    /// The partial sums.
    pub cdf: Vec<u32>,
    /// The total of the table.
    pub total: u32,
}

impl View for LegacyRangeEncoder {
    type V = Interval;

    open spec fn view(&self) -> Interval {
        self.coder@
    }
}

impl LegacyRangeEncoder {
    /// The table behind the partial sums.
    pub open spec fn table(&self) -> Seq<u32> {
        table_of(self.cdf@, CdfLayout::Flat)
    }

    /// The encoder is between two symbols.
    pub open spec fn wf(&self) -> bool {
        &&& self.coder.wf()
        &&& self.total > 0
        &&& is_cdf(self.cdf@, self.total, CdfLayout::Flat)
    }

    /// An encoder that has seen no symbol.
    pub fn new(cdf: Vec<u32>, total: u32) -> (r: Self)
        requires
            total > 0,
            is_cdf(cdf@, total, CdfLayout::Flat),
        ensures
            r.wf(),
            r.cdf@ == cdf@,
            r.total == total,
            r@ == interval::whole(),
    {
        LegacyRangeEncoder { coder: RangeEncoder::new(), cdf, total }
    }

    /// Encode one symbol.
    pub fn encode_byte(&mut self, c: u8)
        requires
            old(self).wf(),
            old(self).table()[c as int] > 0,
            old(self).total <= old(self)@.range,
            old(self)@.shifts + 3 <= usize::MAX,
        ensures
            final(self).wf(),
            final(self).cdf == old(self).cdf,
            final(self).total == old(self).total,
            final(self)@ == interval::encode_step(old(self).table(), true, old(self)@, c as int),
    {
        let ghost g = self.table();
        let ghost e0 = self.coder.emitted();
        let ghost s = c as int;
        let range: u32 = self.coder.range;
        proof {
            interval::lemma_share(g, true, range as int, s);
            interval::lemma_share(g, false, range as int, s);
            interval::lemma_cum_monotone(g, 0, s);
            interval::lemma_cum_monotone(g, s + 1, 256);
            assert(self.cdf@[s] == interval::cum(g, s));
            assert(self.cdf@[s + 1] == interval::cum(g, s + 1));
        }
        let lo: u32 = self.cdf[c as usize];
        let hi: u32 = self.cdf[c as usize + 1];
        let q: u32 = range / self.total;
        let added: u32 = lo * q;
        self.coder.low = self.coder.low + added;
        self.coder.range = if hi == self.total {
            range - added
        } else {
            (hi - lo) * q
        };
        assert(self.coder.emitted() == e0);
        self.coder.renormalise();
    }

    /// End the stream.
    pub fn finish(self) -> (r: Vec<u8>)
        requires
            self.wf(),
            self@.shifts + 4 <= usize::MAX,
        ensures
            r@ == interval::flushed(self@),
    {
        self.coder.finish()
    }
}

// ---------------------------------------------------------------------
// Laws
// ---------------------------------------------------------------------

/// The partial sums of a table give the table back.
pub proof fn lemma_table_of_flat(g: Seq<u32>)
    requires
        g.len() == 256,
        interval::mass(g) <= u32::MAX,
    ensures
        table_of(flat_cdf(g), CdfLayout::Flat) == g,
        is_cdf(flat_cdf(g), interval::mass(g) as u32, CdfLayout::Flat),
{
    let h = table_of(flat_cdf(g), CdfLayout::Flat);
    interval::lemma_cum_monotone(g, 0, 256);
    assert forall|c: int| 0 <= c < 256 implies h[c] == g[c] by {
        interval::lemma_cum_monotone(g, 0, c);
        interval::lemma_cum_monotone(g, c, c + 1);
        interval::lemma_cum_monotone(g, c + 1, 256);
    }
    assert(h =~= g);
}

/// The partial sums of a table with gaps give the table back.
pub proof fn lemma_table_of_gapped(g: Seq<u32>)
    requires
        g.len() == 256,
        interval::mass(g) <= scaling::MAX_TOTAL,
    ensures
        table_of(gapped_cdf(g), CdfLayout::PairPacked) == g,
        is_cdf(gapped_cdf(g), interval::mass(g) as u32, CdfLayout::PairPacked),
{
    let h = table_of(gapped_cdf(g), CdfLayout::PairPacked);
    interval::lemma_cum_monotone(g, 0, 256);
    assert forall|c: int| 0 <= c < 256 implies h[c] == g[c] by {
        interval::lemma_cum_monotone(g, 0, c);
        interval::lemma_cum_monotone(g, c, c + 1);
        interval::lemma_cum_monotone(g, c + 1, 256);
        assert((2 * c) % 2 == 0 && (2 * c) / 2 == c);
        assert((2 * c + 1) % 2 == 1 && (2 * c + 1) / 2 == c);
    }
    assert(h =~= g);
}

/// While the stream lies inside the interval, the offset never loses bits.
proof fn lemma_refill_exact(src: Seq<u8>, w: Window)
    requires
        0 <= w.low < w.range <= interval::INIT_RANGE,
    ensures
        refilled_mod(src, w) == interval::refilled(src, w),
    decreases (if w.range <= LEGACY_TOP { LEGACY_TOP + 1 - w.range } else { 0 }),
{
    if w.range <= LEGACY_TOP {
        let next = Window {
            low: 256 * w.low + interval::refill_bits(src, w.cursor),
            range: 256 * w.range,
            cursor: interval::next_cursor(src, w.cursor),
        };
        assert((256 * w.low) % 0x1_0000_0000 == 256 * w.low);
        lemma_refill_exact(src, next);
    }
}

/// Decoding a stream gives back the symbols that were encoded into it,
/// whatever follows the stream.
pub proof fn law_round_trip(g: Seq<u32>, syms: Seq<u8>, src: Seq<u8>)
    requires
        interval::codable(g, syms),
        interval::stream_of(g, true, syms).is_prefix_of(src),
    ensures
        decode_run(src, g, CdfLayout::Flat, syms.len()) is Some,
        decode_run(src, g, CdfLayout::Flat, syms.len()).unwrap().0 == syms,
{
    digits::lemma_be_bytes_len(
        (2 * interval::encode_all(g, true, syms).low) as nat,
        interval::encode_all(g, true, syms).shifts + 4,
    );
    lemma_decode_prefix(g, syms, src, syms.len());
    assert(syms.take(syms.len() as int) =~= syms);
}

proof fn lemma_decode_prefix(g: Seq<u32>, syms: Seq<u8>, src: Seq<u8>, n: nat)
    requires
        interval::codable(g, syms),
        interval::stream_of(g, true, syms).is_prefix_of(src),
        src.len() >= 4,
        n <= syms.len(),
    ensures
        decode_run(src, g, CdfLayout::Flat, n) is Some,
        decode_run(src, g, CdfLayout::Flat, n).unwrap().0 == syms.take(n as int),
        interval::linked(
            src,
            interval::encode_all(g, true, syms.take(n as int)),
            decode_run(src, g, CdfLayout::Flat, n).unwrap().1,
        ),
    decreases n,
{
    if n == 0 {
        assert(syms.take(0) =~= Seq::empty());
        interval::lemma_linked_open(src);
    } else {
        let m = (n - 1) as nat;
        lemma_decode_prefix(g, syms, src, m);
        let head = syms.take(m as int);
        let s = syms[m as int] as int;
        assert(syms.take(n as int).drop_last() =~= head);
        assert(syms.take(n as int) =~= head.push(syms[m as int]));
        assert(forall|i: int| 0 <= i < head.len() ==> head[i] == syms[i]);
        interval::lemma_encode_all_range(g, true, head);
        let i = interval::encode_all(g, true, head);
        let w = decode_run(src, g, CdfLayout::Flat, m).unwrap().1;
        interval::lemma_share(g, true, i.range, s);
        interval::lemma_located(g, true, syms, src, m as int);
        let nar = interval::narrowed(g, true, i, s);
        lemma_target(g, w, s);
        let w2 = Window {
            low: w.low - interval::share_low(g, w.range, s),
            range: interval::share_width(g, true, w.range, s),
            cursor: w.cursor,
        };
        assert(interval::linked(src, nar, w2));
        lemma_refill_exact(src, w2);
        interval::lemma_linked_refill(src, nar, w2);
    }
}

/// An offset in the share of a symbol has a target that finds the symbol.
proof fn lemma_target(g: Seq<u32>, w: Window, s: int)
    requires
        interval::codable_table(g),
        0 <= s < 256,
        g[s] > 0,
        interval::mass(g) <= w.range,
        interval::share_low(g, w.range, s) <= w.low,
        w.low < interval::share_low(g, w.range, s) + interval::share_width(g, true, w.range, s),
    ensures
        interval::symbol_at(
            g,
            target_of(w, interval::mass(g), w.range / interval::mass(g)),
        ) == s,
        w.range / interval::mass(g) >= 1,
{
    let total = interval::mass(g);
    let q = w.range / total;
    interval::lemma_share(g, true, w.range, s);
    interval::lemma_cum_monotone(g, s + 1, 256);
    interval::lemma_cum_monotone(g, 0, s);
    let c = interval::cum(g, s);
    let d = interval::cum(g, s + 1);
    let low = w.low;
    let t = low / q;
    vstd::arithmetic::div_mod::lemma_fundamental_div_mod(low, q);
    assert(c <= t) by (nonlinear_arith)
        requires
            c * q <= low,
            low == q * t + low % q,
            low % q < q,
            q > 0,
    ;
    if d < total {
        assert((c + g[s]) * q == c * q + g[s] * q) by (nonlinear_arith);
        assert(t < d) by (nonlinear_arith)
            requires
                low < d * q,
                low == q * t + low % q,
                low % q >= 0,
                q > 0,
        ;
    }
    interval::lemma_symbol_unique(g, target_of(w, total, q), s);
}

/// Call `i` of a run of calls that decode symbols.
pub open spec fn decodes_at(
    src: Seq<u8>,
    g: Seq<u32>,
    windows: Seq<Window>,
    results: Seq<Result<u8>>,
    i: int,
) -> bool {
    decodes(src, g, CdfLayout::Flat, windows[i], results[i], windows[i + 1])
}

/// Build partial sums from frequencies, encode some symbols over them, one
/// call each, and end the stream; then decode the stream, one call for each
/// symbol. Call `i` returns symbol `i`. `states` are the encoder's intervals
/// before, between and after the calls, and `windows` those of the decoder.
pub proof fn law_calls_round_trip(
    freq: Seq<u32>,
    cdf: Seq<u32>,
    syms: Seq<u8>,
    states: Seq<Interval>,
    bytes: Seq<u8>,
    windows: Seq<Window>,
    results: Seq<Result<u8>>,
)
    requires
        freq.len() == 256,
        rescalable(freq),
        rescaled_total(freq) <= LEGACY_TOP,
        cdf == flat_cdf(rescaled(freq)),
        forall|i: int|
            0 <= i < syms.len() ==> cdf[#[trigger] syms[i] as int] < cdf[syms[i] as int + 1],
        interval::encodes(table_of(cdf, CdfLayout::Flat), true, syms, states),
        bytes == interval::flushed(states[syms.len() as int]),
        windows.len() == syms.len() + 1,
        windows[0] == interval::opened(bytes),
        results.len() == syms.len(),
        forall|i: int|
            0 <= i < syms.len() ==> #[trigger] decodes_at(
                bytes,
                table_of(cdf, CdfLayout::Flat),
                windows,
                results,
                i,
            ),
    ensures
        bytes.len() >= 4,
        forall|i: int| 0 <= i < syms.len() ==> #[trigger] results[i] == Ok::<u8, Error>(syms[i]),
{
    let g = rescaled(freq);
    law_rescaled(freq);
    lemma_table_of_flat(g);
    assert forall|i: int| 0 <= i < syms.len() implies g[#[trigger] syms[i] as int] > 0 by {
        let c = syms[i] as int;
        interval::lemma_cum_monotone(g, 0, c);
        interval::lemma_cum_monotone(g, c, c + 1);
        interval::lemma_cum_monotone(g, c + 1, 256);
        assert(cdf[c] < cdf[c + 1]);
    }
    interval::lemma_encodes(g, true, syms, states, syms.len());
    assert(syms.take(syms.len() as int) =~= syms);
    digits::lemma_be_bytes_len(
        (2 * interval::encode_all(g, true, syms).low) as nat,
        interval::encode_all(g, true, syms).shifts + 4,
    );
    assert(bytes.is_prefix_of(bytes));
    assert forall|i: int| 0 <= i < syms.len() implies #[trigger] results[i] == Ok::<u8, Error>(
        syms[i],
    ) by {
        lemma_calls(g, syms, bytes, windows, results, i as nat);
        lemma_decode_prefix(g, syms, bytes, i as nat);
        lemma_decode_prefix(g, syms, bytes, (i + 1) as nat);
        assert(decodes_at(bytes, g, windows, results, i));
        let head = decode_run(bytes, g, CdfLayout::Flat, i as nat).unwrap().0;
        let next = decode_run(bytes, g, CdfLayout::Flat, (i + 1) as nat).unwrap().0;
        assert(next == syms.take(i + 1));
        assert(next[i] == syms[i]);
        assert(head.len() == i);
    }
}

/// A run of calls follows the run of steps.
proof fn lemma_calls(
    g: Seq<u32>,
    syms: Seq<u8>,
    bytes: Seq<u8>,
    windows: Seq<Window>,
    results: Seq<Result<u8>>,
    n: nat,
)
    requires
        interval::codable(g, syms),
        interval::stream_of(g, true, syms) == bytes,
        bytes.len() >= 4,
        windows.len() == syms.len() + 1,
        windows[0] == interval::opened(bytes),
        forall|i: int|
            0 <= i < syms.len() ==> #[trigger] decodes_at(bytes, g, windows, results, i),
        n <= syms.len(),
    ensures
        decode_run(bytes, g, CdfLayout::Flat, n) is Some,
        decode_run(bytes, g, CdfLayout::Flat, n).unwrap().1 == windows[n as int],
    decreases n,
{
    assert(bytes.is_prefix_of(bytes));
    lemma_decode_prefix(g, syms, bytes, n);
    if n > 0 {
        lemma_calls(g, syms, bytes, windows, results, (n - 1) as nat);
        assert(decodes_at(bytes, g, windows, results, n - 1));
    }
}

// ---------------------------------------------------------------------
// What the tables hold
// ---------------------------------------------------------------------

/// Units are handed out one by one to the slots 0, 255, 1, 254, 2, 253, and
/// so on, and from the start again after 256 of them.
pub proof fn law_units_in_turn(g: Seq<u32>, d: nat, turn: nat)
    requires
        g.len() == 256,
        d < 0x8000_0000,
        forall|s: int| 0 <= s < 256 ==> #[trigger] g[s] <= 0x8000_0000,
        turn < 128,
    ensures
        handed_out(g, 0) == g,
        d % 256 == 2 * turn ==> handed_out(g, d + 1) == handed_out(g, d).update(
            turn as int,
            (handed_out(g, d)[turn as int] + 1) as u32,
        ),
        d % 256 == 2 * turn + 1 ==> handed_out(g, d + 1) == handed_out(g, d).update(
            255 - turn,
            (handed_out(g, d)[255 - turn] + 1) as u32,
        ),
{
    lemma_handed_out_step(g, d);
    assert(handed_out(g, 0) =~= g);
}

/// A table whose total is a power of two stays as it is. Every other one is
/// scaled to the next power of two, and the units that the total then lacks
/// are handed out.
pub proof fn law_rescaled_table(f: Seq<u32>, lacks: nat)
    requires
        f.len() == 256,
        rescalable(f),
    ensures
        ({
            let from = interval::mass(f) as nat;
            let to = scaling::ceil_pow2(from);
            let g = scaling::scaled_table(f, from, to);
            &&& from == to ==> rescaled(f) == f
            &&& from != to && interval::mass(g) + lacks == to ==> rescaled(f) == handed_out(
                g,
                lacks,
            )
        }),
{
}

/// The rare-symbol-cluster shape: of the counts, 19 in 20 are zeros, and
/// three other symbols occur once or twice.
pub proof fn law_rare_cluster(f: Seq<u32>)
    ensures
        rare_cluster(f) <==> {
            &&& interval::mass(f) > 0
            &&& 20 * f[0] >= 19 * interval::mass(f)
            &&& exists|a: int, b: int, c: int|
                0 < a < b < c < 256 && #[trigger] is_rare(f, a) && #[trigger] is_rare(f, b)
                    && #[trigger] is_rare(f, c)
        },
{
    if rare_symbols(f, 256) >= 3 {
        let c = lemma_last_rare(f, 256);
        let b = lemma_last_rare(f, c);
        let a = lemma_last_rare(f, b);
        assert(is_rare(f, a) && is_rare(f, b) && is_rare(f, c));
    }
    if exists|a: int, b: int, c: int|
        0 < a < b < c < 256 && #[trigger] is_rare(f, a) && #[trigger] is_rare(f, b)
            && #[trigger] is_rare(f, c) {
        let (a, b, c) = choose|a: int, b: int, c: int|
            0 < a < b < c < 256 && #[trigger] is_rare(f, a) && #[trigger] is_rare(f, b)
                && #[trigger] is_rare(f, c);
        lemma_rare_grows(f, 1, a);
        lemma_rare_grows(f, a + 1, b);
        lemma_rare_grows(f, b + 1, c);
        lemma_rare_grows(f, c + 1, 256);
    }
}

/// A symbol that occurs once or twice.
pub open spec fn is_rare(f: Seq<u32>, s: int) -> bool {
    f[s] == 1 || f[s] == 2
}

proof fn lemma_last_rare(f: Seq<u32>, n: int) -> (c: int)
    requires
        rare_symbols(f, n) > 0,
    ensures
        0 < c < n,
        is_rare(f, c),
        rare_symbols(f, c) == rare_symbols(f, n) - 1,
    decreases n,
{
    if is_rare(f, n - 1) {
        n - 1
    } else {
        lemma_last_rare(f, n - 1)
    }
}

proof fn lemma_rare_grows(f: Seq<u32>, a: int, b: int)
    requires
        1 <= a <= b,
    ensures
        rare_symbols(f, a) <= rare_symbols(f, b),
    decreases b,
{
    if a < b {
        lemma_rare_grows(f, a, b - 1);
    }
}

/// Partial sums start at zero and grow by the frequencies. With gaps, every
/// symbol has its start and its end, and one unit lies between the end of
/// one and the start of the next.
pub proof fn law_partial_sums(g: Seq<u32>, c: int)
    requires
        0 <= c < 256,
        interval::mass(g) <= 0x8000_0000,
    ensures
        flat_cdf(g).len() == 257,
        flat_cdf(g)[0] == 0,
        flat_cdf(g)[c + 1] - flat_cdf(g)[c] == g[c],
        gapped_cdf(g).len() == 513,
        gapped_cdf(g)[0] == 0,
        gapped_cdf(g)[2 * c + 1] - gapped_cdf(g)[2 * c] == g[c],
        gapped_cdf(g)[2 * c + 2] == gapped_cdf(g)[2 * c + 1] + 1,
{
    interval::lemma_cum_monotone(g, 0, c);
    interval::lemma_cum_monotone(g, c, c + 1);
    interval::lemma_cum_monotone(g, c + 1, 256);
    assert((2 * c) / 2 == c && (2 * c + 1) / 2 == c && (2 * c + 2) / 2 == c + 1);
    assert((2 * c) % 2 == 0 && (2 * c + 1) % 2 == 1 && (2 * c + 2) % 2 == 0);
}

/// The positions of a number's Fibonacci numbers ascend, no two are
/// neighbours, and they are those of the set bits of its code.
pub proof fn law_selected(code: Seq<bool>, k: int)
    requires
        code.len() <= usize::MAX,
    ensures
        forall|i: int, j: int|
            0 <= i < j < selected(code).len() ==> #[trigger] selected(code)[i]
                < #[trigger] selected(code)[j],
        selected(code).contains(k as usize) && 0 <= k < code.len() ==> code[k],
        0 <= k < code.len() && code[k] ==> selected(code).contains(k as usize),
        forall|i: int| 0 <= i < selected(code).len() ==> #[trigger] selected(code)[i] < code.len(),
    decreases code.len(),
{
    if code.len() > 0 {
        let head = code.drop_last();
        law_selected(head, k);
        let last = (code.len() - 1) as usize;
        if code.last() {
            assert(selected(code) =~= selected(head).push(last));
            if k == code.len() - 1 {
                assert(selected(code)[selected(head).len() as int] == last);
            } else if selected(head).contains(k as usize) {
                let i = choose|i: int|
                    0 <= i < selected(head).len() && selected(head)[i] == k as usize;
                assert(selected(code)[i] == k as usize);
            }
        }
    }
}

} // verus!
