//! The arithmetic of range coding, over unbounded integers.
//!
//! An encoder narrows an interval of the integers once per symbol; a decoder
//! locates the number spelled by the stream inside the same nested intervals.
//! Both wire formats of this codec (the modern one and the one of the
//! obsolete RGB frames) divide the range among the symbols in proportion to
//! their frequencies. They differ in who owns the remainder of that division:
//! nobody, or the last symbol in use (`stretch`).

use crate::digits;
use vstd::prelude::*;

verus! {

/// Ranges at or below this threshold are scaled up by a byte.
pub const TOP: u32 = 0x0080_0000;

/// The range before the first symbol.
pub const INIT_RANGE: u32 = 0x8000_0000;

/// What an encoder has committed to: the stream, read as a number of
/// `shifts` bytes and 31 bits, lies in `[low, low + range)`.
pub struct Interval {
    pub low: int,
    pub range: int,
    pub shifts: nat,
}

/// What a decoder sees: the offset of the stream into the current interval,
/// the width of that interval, and how far the stream has been read.
pub struct Window {
    pub low: int,
    pub range: int,
    pub cursor: int,
}

/// The sum of the first `s` frequencies.
pub open spec fn cum(f: Seq<u32>, s: int) -> int
    decreases s,
{
    if s <= 0 {
        0
    } else {
        cum(f, s - 1) + f[s - 1] as int
    }
}

/// The sum of all 256 frequencies.
pub open spec fn mass(f: Seq<u32>) -> int {
    cum(f, 256)
}

/// The share of symbol `s` of the mass holds `target`.
pub open spec fn holds(f: Seq<u32>, s: int, target: int) -> bool {
    0 <= s < 256 && cum(f, s) <= target < cum(f, s + 1)
}

/// The symbol whose share of the mass holds `target`.
pub open spec fn symbol_at(f: Seq<u32>, target: int) -> int {
    choose|s: int| holds(f, s, target)
}

/// The interval before the first symbol.
pub open spec fn whole() -> Interval {
    Interval { low: 0, range: INIT_RANGE as int, shifts: 0 }
}

/// Scale by 256 until the range is above [`TOP`].
pub open spec fn renormalised(i: Interval) -> Interval
    decreases (if i.range <= TOP { TOP + 1 - i.range } else { 0 }),
{
    if 0 < i.range <= TOP {
        renormalised(Interval { low: 256 * i.low, range: 256 * i.range, shifts: i.shifts + 1 })
    } else {
        i
    }
}

/// Where the share of symbol `s` starts in a range.
pub open spec fn share_low(f: Seq<u32>, range: int, s: int) -> int {
    cum(f, s) * (range / mass(f))
}

/// How wide the share of symbol `s` is in a range.
pub open spec fn share_width(f: Seq<u32>, stretch: bool, range: int, s: int) -> int {
    if stretch && cum(f, s + 1) == mass(f) {
        range - share_low(f, range, s)
    } else {
        f[s] * (range / mass(f))
    }
}

/// The interval after encoding one symbol, before renormalisation.
pub open spec fn narrowed(f: Seq<u32>, stretch: bool, i: Interval, s: int) -> Interval {
    Interval {
        low: i.low + share_low(f, i.range, s),
        range: share_width(f, stretch, i.range, s),
        shifts: i.shifts,
    }
}

/// The interval after encoding one symbol.
pub open spec fn encode_step(f: Seq<u32>, stretch: bool, i: Interval, s: int) -> Interval {
    renormalised(narrowed(f, stretch, i, s))
}

/// The interval after encoding a run of symbols from the start.
pub open spec fn encode_all(f: Seq<u32>, stretch: bool, syms: Seq<u8>) -> Interval
    decreases syms.len(),
{
    if syms.len() == 0 {
        whole()
    } else {
        encode_step(f, stretch, encode_all(f, stretch, syms.drop_last()), syms.last() as int)
    }
}

/// The bytes that stand for an interval: its lower end, followed by a zero
/// bit.
pub open spec fn flushed(i: Interval) -> Seq<u8> {
    digits::be_bytes((2 * i.low) as nat, i.shifts + 4)
}

/// The stream of a run of symbols.
pub open spec fn stream_of(f: Seq<u32>, stretch: bool, syms: Seq<u8>) -> Seq<u8> {
    flushed(encode_all(f, stretch, syms))
}

/// `f` is a table of 256 frequencies small enough for every symbol in use to
/// keep a share at every reachable range.
pub open spec fn codable_table(f: Seq<u32>) -> bool {
    f.len() == 256 && 0 < mass(f) <= TOP
}

/// Every symbol of `syms` has a share.
pub open spec fn codable(f: Seq<u32>, syms: Seq<u8>) -> bool {
    codable_table(f) && forall|i: int| 0 <= i < syms.len() ==> f[#[trigger] syms[i] as int] > 0
}

/// The eight bits that one refill takes: the low bit of the byte at the
/// cursor and the high seven bits of the next.
pub open spec fn refill_bits(src: Seq<u8>, cursor: int) -> int {
    (digits::byte_or_zero(src, cursor) % 2) * 128 + digits::byte_or_zero(src, cursor + 1) / 2
}

/// The cursor moves one byte on and stops at the end of the stream.
pub open spec fn next_cursor(src: Seq<u8>, cursor: int) -> int {
    if cursor < src.len() {
        cursor + 1
    } else {
        cursor
    }
}

/// Take bits from the stream until the range is above [`TOP`].
pub open spec fn refilled(src: Seq<u8>, w: Window) -> Window
    decreases (if w.range <= TOP { TOP + 1 - w.range } else { 0 }),
{
    if 0 < w.range <= TOP {
        refilled(
            src,
            Window {
                low: 256 * w.low + refill_bits(src, w.cursor),
                range: 256 * w.range,
                cursor: next_cursor(src, w.cursor),
            },
        )
    } else {
        w
    }
}

/// The window onto a stream before the first symbol: its first 31 bits.
pub open spec fn opened(src: Seq<u8>) -> Window {
    Window { low: digits::padded_value(src, 4) / 2, range: INIT_RANGE as int, cursor: 3 }
}

/// The window `w` shows where `src` lies in the interval `i`.
pub open spec fn linked(src: Seq<u8>, i: Interval, w: Window) -> bool {
    &&& w.range == i.range
    &&& w.cursor == if 3 + i.shifts <= src.len() { 3 + i.shifts as int } else { src.len() as int }
    &&& w.low == digits::padded_value(src, i.shifts + 4) / 2 - i.low
}

/// The stream lies in the interval.
pub open spec fn located(src: Seq<u8>, i: Interval) -> bool {
    i.low <= digits::padded_value(src, i.shifts + 4) / 2 < i.low + i.range
}

// ---------------------------------------------------------------------
// Cumulative frequencies
// ---------------------------------------------------------------------

pub proof fn lemma_cum_monotone(f: Seq<u32>, s: int, t: int)
    requires
        s <= t,
    ensures
        0 <= cum(f, s) <= cum(f, t),
    decreases t,
{
    if t <= 0 {
    } else if s == t {
        lemma_cum_monotone(f, t - 1, t - 1);
    } else {
        lemma_cum_monotone(f, s, t - 1);
    }
}

/// Changing one frequency changes the sums behind it by as much.
pub proof fn lemma_cum_update(f: Seq<u32>, k: int, v: u32, s: int)
    requires
        0 <= k < f.len(),
        s <= f.len(),
    ensures
        cum(f.update(k, v), s) == cum(f, s) + if k < s {
            v - f[k]
        } else {
            0
        },
    decreases s,
{
    if s > 0 {
        lemma_cum_update(f, k, v, s - 1);
    }
}

/// Two symbols cannot both hold the same target.
pub proof fn lemma_symbol_unique(f: Seq<u32>, target: int, s: int)
    requires
        0 <= s < 256,
        cum(f, s) <= target < cum(f, s + 1),
    ensures
        symbol_at(f, target) == s,
{
    let t = symbol_at(f, target);
    assert(holds(f, s, target));
    assert(holds(f, t, target));
    if t < s {
        lemma_cum_monotone(f, t + 1, s);
    } else if s < t {
        lemma_cum_monotone(f, s + 1, t);
    }
}

// ---------------------------------------------------------------------
// Shares and renormalisation
// ---------------------------------------------------------------------

/// In a range at least as large as the mass, the share of a used symbol is
/// not empty and lies within the range.
pub proof fn lemma_share(f: Seq<u32>, stretch: bool, range: int, s: int)
    requires
        f.len() == 256,
        0 < mass(f) <= range,
        0 <= s < 256,
        f[s] > 0,
    ensures
        range / mass(f) >= 1,
        0 <= share_low(f, range, s),
        0 < share_width(f, stretch, range, s),
        share_low(f, range, s) + share_width(f, stretch, range, s) <= range,
{
    let total = mass(f);
    let q = range / total;
    lemma_cum_monotone(f, s, s);
    lemma_cum_monotone(f, s + 1, 256);
    vstd::arithmetic::div_mod::lemma_fundamental_div_mod(range, total);
    vstd::arithmetic::div_mod::lemma_div_non_zero(range, total);
    let c = cum(f, s);
    let w = f[s] as int;
    assert(cum(f, s + 1) == c + w);
    assert(c * q >= 0) by (nonlinear_arith)
        requires
            c >= 0,
            q >= 1,
    ;
    assert(w * q >= 1) by (nonlinear_arith)
        requires
            w >= 1,
            q >= 1,
    ;
    assert(c * q + w * q <= range) by (nonlinear_arith)
        requires
            c + w <= total,
            q >= 1,
            range == total * q + range % total,
            range % total >= 0,
    ;
}

/// Renormalisation scales both ends by the same power of 256.
pub proof fn lemma_renormalised(i: Interval) -> (j: nat)
    requires
        0 < i.range <= INIT_RANGE,
    ensures
        j <= 3,
        i.range > TOP ==> j == 0,
        renormalised(i).shifts == i.shifts + j,
        renormalised(i).low == i.low * digits::pow256(j),
        renormalised(i).range == i.range * digits::pow256(j),
        TOP < renormalised(i).range <= INIT_RANGE,
{
    reveal_with_fuel(renormalised, 5);
    reveal_with_fuel(digits::pow256, 5);
    assert forall|x: int, j: nat| j <= 3 implies #[trigger] (x * digits::pow256(j)) == (if j == 0 {
        x
    } else if j == 1 {
        256 * x
    } else if j == 2 {
        65536 * x
    } else {
        16777216 * x
    }) by {
        let p = digits::pow256(j) as int;
        assert(x * p == p * x) by (nonlinear_arith);
    }
    if i.range > TOP {
        0
    } else if 256 * i.range > TOP {
        1
    } else if 65536 * i.range > TOP {
        2
    } else {
        3
    }
}

/// After every symbol the interval is renormalised, and all bounds are
/// non-negative.
pub proof fn lemma_encode_all_range(f: Seq<u32>, stretch: bool, syms: Seq<u8>)
    requires
        codable(f, syms),
    ensures
        encode_all(f, stretch, syms).low >= 0,
        TOP < encode_all(f, stretch, syms).range <= INIT_RANGE,
        encode_all(f, stretch, syms).shifts <= 3 * syms.len(),
    decreases syms.len(),
{
    if syms.len() > 0 {
        let head = syms.drop_last();
        let s = syms.last() as int;
        assert(forall|i: int| 0 <= i < head.len() ==> head[i] == syms[i]);
        lemma_encode_all_range(f, stretch, head);
        let i = encode_all(f, stretch, head);
        lemma_share(f, stretch, i.range, s);
        let n = narrowed(f, stretch, i, s);
        let j = lemma_renormalised(n);
        assert(n.low * digits::pow256(j) >= 0) by (nonlinear_arith)
            requires
                n.low >= 0,
                digits::pow256(j) >= 0,
        ;
    }
}

/// The interval of the whole run lies inside the interval of each prefix.
pub proof fn lemma_nested(f: Seq<u32>, stretch: bool, syms: Seq<u8>, n: int)
    requires
        codable(f, syms),
        0 <= n <= syms.len(),
    ensures
        ({
            let outer = encode_all(f, stretch, syms.take(n));
            let inner = encode_all(f, stretch, syms);
            let scale = digits::pow256((inner.shifts - outer.shifts) as nat);
            &&& outer.shifts <= inner.shifts
            &&& outer.low * scale <= inner.low
            &&& inner.low + inner.range <= (outer.low + outer.range) * scale
        }),
    decreases syms.len(),
{
    let outer = encode_all(f, stretch, syms.take(n));
    let inner = encode_all(f, stretch, syms);
    if n == syms.len() {
        assert(syms.take(n) =~= syms);
        assert(outer.low * 1 == outer.low);
        assert((outer.low + outer.range) * 1 == outer.low + outer.range);
    } else {
        let head = syms.drop_last();
        let s = syms.last() as int;
        assert(forall|i: int| 0 <= i < head.len() ==> head[i] == syms[i]);
        assert(head.take(n) =~= syms.take(n));
        lemma_nested(f, stretch, head, n);
        lemma_encode_all_range(f, stretch, head);
        let mid = encode_all(f, stretch, head);
        lemma_share(f, stretch, mid.range, s);
        let nar = narrowed(f, stretch, mid, s);
        let j = lemma_renormalised(nar);
        let a = digits::pow256((mid.shifts - outer.shifts) as nat) as int;
        let b = digits::pow256(j) as int;
        digits::lemma_pow256_add((mid.shifts - outer.shifts) as nat, j);
        digits::lemma_pow256_pos(j);
        assert((inner.shifts - outer.shifts) as nat == (mid.shifts - outer.shifts) as nat + j);
        let ol = outer.low;
        let ot = outer.low + outer.range;
        assert(ol * (a * b) == (ol * a) * b) by (nonlinear_arith);
        assert(ot * (a * b) == (ot * a) * b) by (nonlinear_arith);
        assert((ol * a) * b <= nar.low * b) by (nonlinear_arith)
            requires
                ol * a <= nar.low,
                b > 0,
        ;
        assert((nar.low + nar.range) * b <= (ot * a) * b) by (nonlinear_arith)
            requires
                nar.low + nar.range <= ot * a,
                b > 0,
        ;
        assert((nar.low + nar.range) * b == nar.low * b + nar.range * b) by (nonlinear_arith);
    }
}

/// Every prefix of the run locates any stream that starts with the bytes of
/// the whole run, and narrowing for the next symbol still does.
pub proof fn lemma_located(
    f: Seq<u32>,
    stretch: bool,
    syms: Seq<u8>,
    src: Seq<u8>,
    n: int,
)
    requires
        codable(f, syms),
        0 <= n < syms.len(),
        stream_of(f, stretch, syms).is_prefix_of(src),
    ensures
        located(src, narrowed(f, stretch, encode_all(f, stretch, syms.take(n)), syms[n] as int)),
{
    let last = encode_all(f, stretch, syms);
    lemma_encode_all_range(f, stretch, syms);
    let k = last.shifts;
    let bytes = stream_of(f, stretch, syms);
    lemma_last_fits(f, stretch, syms);
    digits::lemma_be_bytes_len((2 * last.low) as nat, k + 4);
    digits::lemma_be_value_of_bytes((2 * last.low) as nat, k + 4);
    assert(src.take((k + 4) as int) =~= bytes);
    digits::lemma_padded_prefix(src, k + 4);
    assert(digits::padded_value(src, k + 4) == 2 * last.low);

    let head = syms.take(n);
    let next = syms.take(n + 1);
    assert(next.drop_last() =~= head);
    assert(forall|i: int| 0 <= i < next.len() ==> next[i] == syms[i]);
    assert(forall|i: int| 0 <= i < head.len() ==> head[i] == syms[i]);
    lemma_encode_all_range(f, stretch, head);
    let i = encode_all(f, stretch, head);
    lemma_share(f, stretch, i.range, syms[n] as int);
    let nar = narrowed(f, stretch, i, syms[n] as int);
    let j = lemma_renormalised(nar);
    lemma_nested(f, stretch, syms, n + 1);
    let e = encode_all(f, stretch, next);
    assert(e == renormalised(nar));
    let d = (k - e.shifts) as nat;
    let a = digits::pow256(j) as int;
    let b = digits::pow256(d) as int;
    digits::lemma_pow256_add(j, d);
    digits::lemma_pow256_pos(j);
    digits::lemma_pow256_pos(d);
    let p = digits::padded_value(src, nar.shifts + 4);
    digits::lemma_padded_drop(src, nar.shifts + 4, j + d);
    assert(nar.shifts + 4 + (j + d) == k + 4);
    let ab = a * b;
    assert(ab > 0) by (nonlinear_arith)
        requires
            a > 0,
            b > 0,
            ab == a * b,
    ;
    assert((nar.low * a) * b == nar.low * ab) by (nonlinear_arith)
        requires
            ab == a * b,
    ;
    assert((nar.low * a + nar.range * a) * b == (nar.low + nar.range) * ab) by (nonlinear_arith)
        requires
            ab == a * b,
    ;
    let lo = nar.low;
    let hi = nar.low + nar.range;
    let v = last.low;
    assert(2 * lo <= p) by (nonlinear_arith)
        requires
            lo * ab <= v,
            2 * v < (p + 1) * ab,
            ab > 0,
    ;
    assert(p < 2 * hi) by (nonlinear_arith)
        requires
            v < hi * ab,
            p * ab <= 2 * v,
            ab > 0,
    ;
}

/// The lower end of the interval fits the bytes of its stream.
pub proof fn lemma_last_fits(f: Seq<u32>, stretch: bool, syms: Seq<u8>)
    requires
        codable(f, syms),
    ensures
        0 <= 2 * encode_all(f, stretch, syms).low < digits::pow256(
            encode_all(f, stretch, syms).shifts + 4,
        ),
{
    let last = encode_all(f, stretch, syms);
    lemma_encode_all_range(f, stretch, syms);
    lemma_nested(f, stretch, syms, 0);
    assert(syms.take(0) =~= Seq::empty());
    let scale = digits::pow256(last.shifts) as int;
    assert((last.shifts - 0) as nat == last.shifts);
    digits::lemma_pow256_add(last.shifts, 4);
    reveal_with_fuel(digits::pow256, 5);
    assert(digits::pow256(4) == 0x1_0000_0000);
    assert(2 * ((0 + INIT_RANGE as int) * scale) == scale * 0x1_0000_0000) by (nonlinear_arith)
        requires
            INIT_RANGE == 0x8000_0000,
    ;
}

/// Call `i` of a run of calls that encode symbols.
pub open spec fn encodes_at(
    f: Seq<u32>,
    stretch: bool,
    syms: Seq<u8>,
    states: Seq<Interval>,
    i: int,
) -> bool {
    states[i + 1] == encode_step(f, stretch, states[i], syms[i] as int)
}

/// A run of calls that encode symbols, from a fresh encoder on: `states`
/// are the intervals before, between and after the calls.
pub open spec fn encodes(f: Seq<u32>, stretch: bool, syms: Seq<u8>, states: Seq<Interval>) -> bool {
    &&& states.len() == syms.len() + 1
    &&& states[0] == whole()
    &&& forall|i: int| 0 <= i < syms.len() ==> #[trigger] encodes_at(f, stretch, syms, states, i)
}

/// A run of calls leads to the interval of the symbols.
pub proof fn lemma_encodes(
    f: Seq<u32>,
    stretch: bool,
    syms: Seq<u8>,
    states: Seq<Interval>,
    n: nat,
)
    requires
        encodes(f, stretch, syms, states),
        n <= syms.len(),
    ensures
        states[n as int] == encode_all(f, stretch, syms.take(n as int)),
    decreases n,
{
    if n == 0 {
        assert(syms.take(0) =~= Seq::empty());
    } else {
        let m = (n - 1) as nat;
        lemma_encodes(f, stretch, syms, states, m);
        assert(encodes_at(f, stretch, syms, states, m as int));
        assert(syms.take(n as int).drop_last() =~= syms.take(m as int));
        assert(syms.take(n as int).last() == syms[m as int]);
    }
}

// ---------------------------------------------------------------------
// Windows
// ---------------------------------------------------------------------

/// Refilling a window follows renormalising the interval.
pub proof fn lemma_linked_refill(src: Seq<u8>, i: Interval, w: Window)
    requires
        linked(src, i, w),
    ensures
        linked(src, renormalised(i), refilled(src, w)),
    decreases (if i.range <= TOP { TOP + 1 - i.range } else { 0 }),
{
    if 0 < i.range <= TOP {
        let i2 = Interval { low: 256 * i.low, range: 256 * i.range, shifts: i.shifts + 1 };
        let w2 = Window {
            low: 256 * w.low + refill_bits(src, w.cursor),
            range: 256 * w.range,
            cursor: next_cursor(src, w.cursor),
        };
        let p = digits::padded_value(src, i.shifts + 4);
        let last = digits::byte_or_zero(src, i.shifts as int + 3);
        let next = digits::byte_or_zero(src, i.shifts as int + 4);
        assert(digits::padded_value(src, i.shifts + 5) == 256 * p + next);
        assert(p == 256 * digits::padded_value(src, i.shifts + 3) + last);
        assert(p % 2 == last % 2);
        assert((256 * p + next) / 2 == 256 * (p / 2) + (p % 2) * 128 + next / 2);
        assert(refill_bits(src, w.cursor) == (last % 2) * 128 + next / 2);
        assert(linked(src, i2, w2));
        lemma_linked_refill(src, i2, w2);
    }
}

pub proof fn lemma_linked_open(src: Seq<u8>)
    requires
        src.len() >= 4,
    ensures
        linked(src, whole(), opened(src)),
{
}

} // verus!
