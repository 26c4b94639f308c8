//! The modern range coder.
//!
//! Ranges stay in `(2^23, 2^31]`, the stream starts with 31 bits, and each
//! refill takes eight more: the low bit of one byte and the high seven of the
//! next. An encoder therefore ends its stream with a zero bit.
//!
//! [`RangeEncoder`] and [`RangeDecoder`] are described by
//! [`crate::interval`]: the encoder's view is the interval that it has
//! narrowed so far, the decoder's view is where the stream lies in it.

use crate::digits;
use crate::error::{Error, Result};
use crate::interval;
use crate::interval::{Interval, Window};
use vstd::prelude::*;

verus! {

/// Ranges at or below this threshold are scaled up by a byte.
pub const TOP: u32 = 0x0080_0000;

/// The range before the first symbol.
pub const INIT_RANGE: u32 = 0x8000_0000;

// ---------------------------------------------------------------------
// Cumulative frequencies
// ---------------------------------------------------------------------

/// Cumulative view of a table of 256 frequencies.
#[derive(Debug, Clone)]
pub struct Cdf {
    /// Where symbol 0 ends.
    pub freq0: u32,
    /// The sum of all frequencies.
    pub total: u32,
    /// Where symbol 255 starts.
    pub cum_top: u32,
    /// `cum[s]` is where symbol `s` starts.
    pub cum: [u32; 257],
    /// The frequencies.
    pub freqs: [u32; 256],
}

impl View for Cdf {
    type V = Seq<u32>;

    open spec fn view(&self) -> Seq<u32> {
        self.freqs@
    }
}

impl Cdf {
    /// The cached fields agree with the frequencies, and some symbol is in
    /// use.
    pub open spec fn wf(&self) -> bool {
        &&& self.freqs@.len() == 256
        &&& self.cum@.len() == 257
        &&& forall|s: int| 0 <= s <= 256 ==> #[trigger] self.cum@[s] == interval::cum(self@, s)
        &&& self.freq0 == interval::cum(self@, 1)
        &&& self.cum_top == interval::cum(self@, 255)
        &&& self.total == interval::mass(self@)
        &&& 0 < interval::mass(self@)
    }

    /// Build the cumulative view of a table.
    pub fn from_frequencies(freq: &[u32; 256]) -> (r: Result<Self>)
        ensures
            match r {
                Ok(cdf) => cdf.wf() && cdf@ == freq@ && 0 < interval::mass(freq@) <= u32::MAX,
                Err(e) => {
                    ||| e == Error::EmptyProbabilityTable && interval::mass(freq@) == 0
                    ||| e == Error::ProbabilityTableOverflow && interval::mass(freq@) > u32::MAX
                },
            },
    {
        let mut cum: [u32; 257] = [0u32; 257];
        let mut acc: u32 = 0;
        let mut i: usize = 0;
        while i < 256
            invariant
                i <= 256,
                acc == interval::cum(freq@, i as int),
                forall|s: int| 0 <= s < i ==> #[trigger] cum@[s] == interval::cum(freq@, s),
            decreases 256 - i,
        {
            cum[i] = acc;
            proof {
                interval::lemma_cum_monotone(freq@, i + 1, 256);
            }
            if freq[i] > u32::MAX - acc {
                return Err(Error::ProbabilityTableOverflow);
            }
            acc = acc + freq[i];
            i = i + 1;
        }
        cum[256] = acc;
        if acc == 0 {
            return Err(Error::EmptyProbabilityTable);
        }
        Ok(Cdf { freq0: cum[1], total: acc, cum_top: cum[255], cum, freqs: *freq })
    }

    /// The frequency of symbol `s`.
    pub fn freq(&self, s: usize) -> (r: u32)
        requires
            self.wf(),
            s < 256,
        ensures
            r == self@[s as int],
    {
        self.freqs[s]
    }

    /// The sum of all frequencies.
    pub fn total(&self) -> (r: u32)
        requires
            self.wf(),
        ensures
            r == interval::mass(self@),
            r > 0,
    {
        self.total
    }

    /// The sum of the frequencies below symbol `s`.
    pub fn lo(&self, s: usize) -> (r: u32)
        requires
            self.wf(),
            s <= 256,
        ensures
            r == interval::cum(self@, s as int),
    {
        self.cum[s]
    }

    /// The symbol whose share of the mass holds `target`.
    pub fn find_symbol(&self, target: u32) -> (s: usize)
        requires
            self.wf(),
            target < interval::mass(self@),
        ensures
            s < 256,
            interval::cum(self@, s as int) <= target < interval::cum(self@, s + 1),
            s == interval::symbol_at(self@, target as int),
    {
        let mut lo: usize = 0;
        let mut hi: usize = 256;
        while lo < hi
            invariant
                self.wf(),
                lo <= hi <= 256,
                interval::cum(self@, lo as int) <= target,
                hi < 256 ==> target < interval::cum(self@, hi + 1),
                target < interval::mass(self@),
            decreases hi - lo,
        {
            let mid: usize = (lo + hi) / 2;
            assert(self.cum@[mid + 1] == interval::cum(self@, mid + 1));
            if self.cum[mid + 1] <= target {
                lo = mid + 1;
            } else {
                hi = mid;
            }
        }
        proof {
            if lo == 256 {
                assert(interval::cum(self@, 256) <= target);
            }
            interval::lemma_symbol_unique(self@, target as int, lo as int);
        }
        lo
    }
}

// ---------------------------------------------------------------------
// Decoder
// ---------------------------------------------------------------------

/// One symbol: what it is, and the window after it. `None` where the mass
/// exceeds the range. The remainder of the division of the range, above the
/// shares of all symbols, stands for 255.
pub open spec fn decode_step(src: Seq<u8>, f: Seq<u32>, w: Window) -> Option<(u8, Window)> {
    let total = interval::mass(f);
    let q = w.range / total;
    if q == 0 {
        None
    } else if w.low >= total * q {
        Some(
            (
                255u8,
                interval::refilled(
                    src,
                    Window { low: w.low - total * q, range: w.range - total * q, cursor: w.cursor },
                ),
            ),
        )
    } else {
        let s = interval::symbol_at(f, w.low / q);
        Some(
            (
                s as u8,
                interval::refilled(
                    src,
                    Window {
                        low: w.low - interval::cum(f, s) * q,
                        range: f[s] * q,
                        cursor: w.cursor,
                    },
                ),
            ),
        )
    }
}

/// The first `n` symbols of a stream. `None` where one of them cannot be
/// decoded.
pub open spec fn decode_run(src: Seq<u8>, f: Seq<u32>, n: nat) -> Option<(Seq<u8>, Window)>
    decreases n,
{
    if n == 0 {
        Some((Seq::empty(), interval::opened(src)))
    } else {
        match decode_run(src, f, (n - 1) as nat) {
            None => None,
            Some((head, w)) => match decode_step(src, f, w) {
                None => None,
                Some((s, next)) => Some((head.push(s), next)),
            },
        }
    }
}

/// What a call that decodes a symbol returns, and the window after it.
pub open spec fn decodes(
    src: Seq<u8>,
    f: Seq<u32>,
    before: Window,
    r: Result<u8>,
    after: Window,
) -> bool {
    match decode_step(src, f, before) {
        Some((s, w)) => r == Ok::<u8, Error>(s) && after == w,
        None => r == Err::<u8, Error>(Error::ProbabilityTotalExceedsRange) && after == before,
    }
}

/// Decoder over a borrowed stream.
pub struct RangeDecoder<'a> {
    /// The stream.
    pub src: &'a [u8],
    /// The last byte that has been taken into account. Its low bit is still
    /// to be read.
    pub cursor: usize,
    /// Offset of the stream into the current interval.
    pub low: u32,
    /// Width of the current interval.
    pub range: u32,
}

impl<'a> View for RangeDecoder<'a> {
    type V = Window;

    open spec fn view(&self) -> Window {
        Window { low: self.low as int, range: self.range as int, cursor: self.cursor as int }
    }
}

impl<'a> RangeDecoder<'a> {
    /// The stream lies inside the interval, and the range is renormalised.
    pub open spec fn wf(&self) -> bool {
        &&& self.low < self.range
        &&& TOP < self.range <= INIT_RANGE
        &&& self.cursor <= self.src@.len()
    }

    /// Start at the beginning of a stream: four bytes are required.
    pub fn new(src: &'a [u8]) -> (r: Result<Self>)
        ensures
            match r {
                Ok(d) => src@.len() >= 4 && d.wf() && d.src@ == src@ && d@ == interval::opened(src@),
                Err(e) => src@.len() < 4 && e == (Error::Truncated {
                    context: "range-coder priming bytes",
                }),
            },
    {
        if src.len() < 4 {
            return Err(Error::Truncated { context: "range-coder priming bytes" });
        }
        let e0: u32 = src[0] as u32;
        let e1: u32 = src[1] as u32;
        let e2: u32 = src[2] as u32;
        let e3: u32 = src[3] as u32;
        let low: u32 = e0 * 0x0080_0000 + e1 * 0x8000 + e2 * 0x80 + e3 / 2;
        proof {
            reveal_with_fuel(digits::padded_value, 5);
        }
        Ok(RangeDecoder { src, cursor: 3, low, range: INIT_RANGE })
    }

    /// Take bits from the stream until the range is above the threshold.
    fn renormalise(&mut self)
        requires
            old(self).low < old(self).range,
            0 < old(self).range <= INIT_RANGE,
            old(self).cursor <= old(self).src@.len(),
        ensures
            final(self).wf(),
            final(self).src == old(self).src,
            final(self)@ == interval::refilled(old(self).src@, old(self)@),
    {
        while self.range <= TOP
            invariant
                self.src == old(self).src,
                self.low < self.range,
                0 < self.range <= INIT_RANGE,
                self.cursor <= self.src@.len(),
                interval::refilled(self.src@, self@) == interval::refilled(
                    old(self).src@,
                    old(self)@,
                ),
            decreases INIT_RANGE - self.range,
        {
            let cursor: usize = self.cursor;
            let len: usize = self.src.len();
            let prev: u32 = if cursor < len {
                self.src[cursor] as u32
            } else {
                0
            };
            let next: u32 = if cursor < len && cursor + 1 < len {
                self.src[cursor + 1] as u32
            } else {
                0
            };
            self.low = self.low * 256 + ((prev % 2) * 128 + next / 2);
            self.range = self.range * 256;
            if cursor < len {
                self.cursor = cursor + 1;
            }
        }
    }

    /// Decode one symbol.
    pub fn decode_symbol(&mut self, cdf: &Cdf) -> (r: Result<u8>)
        requires
            old(self).wf(),
            cdf.wf(),
        ensures
            final(self).wf(),
            final(self).src == old(self).src,
            decodes(old(self).src@, cdf@, old(self)@, r, final(self)@),
    {
        let total: u32 = cdf.total();
        let q: u32 = self.range / total;
        if q == 0 {
            return Err(Error::ProbabilityTotalExceedsRange);
        }
        let ghost f = cdf@;
        let ghost low = self.low as int;
        proof {
            vstd::arithmetic::div_mod::lemma_fundamental_div_mod(self.range as int, total as int);
            interval::lemma_cum_monotone(f, 0, 1);
            interval::lemma_cum_monotone(f, 1, 256);
            assert(cdf.freq0 * q <= total * q) by (nonlinear_arith)
                requires
                    cdf.freq0 <= total,
                    q >= 0,
            ;
            assert(total * q <= self.range) by (nonlinear_arith)
                requires
                    self.range == total * q + self.range as int % total as int,
                    self.range as int % total as int >= 0,
            ;
        }
        let freq0_scaled: u32 = cdf.freq0 * q;
        if self.low < freq0_scaled {
            proof {
                lemma_target(f, low, q as int, 0);
                assert(interval::cum(f, 1) == f[0]);
            }
            self.range = freq0_scaled;
            self.renormalise();
            return Ok(0);
        }
        let total_scaled: u32 = total * q;
        if self.low >= total_scaled {
            self.low = self.low - total_scaled;
            self.range = self.range - total_scaled;
            self.renormalise();
            return Ok(0xff);
        }
        let target: u32 = self.low / q;
        proof {
            vstd::arithmetic::div_mod::lemma_fundamental_div_mod(low, q as int);
            assert(target < total) by (nonlinear_arith)
                requires
                    low == q * target + low % q as int,
                    low % q as int >= 0,
                    low < total * q,
                    q > 0,
            ;
        }
        let symbol: usize = cdf.find_symbol(target);
        let lo: u32 = cdf.lo(symbol);
        let hi: u32 = cdf.lo(symbol + 1);
        proof {
            interval::lemma_cum_monotone(f, symbol + 1, 256);
            let t = target as int;
            assert(lo * q <= low) by (nonlinear_arith)
                requires
                    low == q * t + low % q as int,
                    low % q as int >= 0,
                    lo <= t,
                    q > 0,
            ;
            assert(low < hi * q) by (nonlinear_arith)
                requires
                    low == q * t + low % q as int,
                    low % (q as int) < q,
                    t + 1 <= hi,
                    q > 0,
            ;
            assert(hi * q <= total * q) by (nonlinear_arith)
                requires
                    hi <= total,
                    q > 0,
            ;
            assert((hi - lo) * q == hi * q - lo * q) by (nonlinear_arith);
        }
        self.low = self.low - lo * q;
        self.range = (hi - lo) * q;
        self.renormalise();
        Ok(symbol as u8)
    }
}

/// Membership in a share, read off the quotient.
proof fn lemma_target(f: Seq<u32>, low: int, q: int, s: int)
    requires
        0 <= s < 256,
        q > 0,
        interval::cum(f, s) * q <= low < interval::cum(f, s + 1) * q,
    ensures
        interval::symbol_at(f, low / q) == s,
{
    let c = interval::cum(f, s);
    let d = interval::cum(f, s + 1);
    let t = low / q;
    vstd::arithmetic::div_mod::lemma_fundamental_div_mod(low, q);
    assert(c <= t) by (nonlinear_arith)
        requires
            c * q <= low,
            low == q * t + low % q,
            low % q < q,
            q > 0,
    ;
    assert(t < d) by (nonlinear_arith)
        requires
            low < d * q,
            low == q * t + low % q,
            low % q >= 0,
            q > 0,
    ;
    interval::lemma_symbol_unique(f, t, s);
}

// ---------------------------------------------------------------------
// Encoder
// ---------------------------------------------------------------------

/// Encoder with delayed carries.
///
/// The bytes emitted so far are `buf`, then `cache` once `started`, then
/// `pending_ffs` bytes of value 0xff. A carry out of `low` increments
/// `cache` and turns the 0xff bytes into zeros.
pub struct RangeEncoder {
    /// Bytes that no carry can reach.
    pub buf: Vec<u8>,
    /// Number of 0xff bytes behind `cache`.
    pub pending_ffs: usize,
    /// The last byte that a carry may increment.
    pub cache: u8,
    /// Whether `cache` holds a byte.
    pub started: bool,
    /// Lower end of the interval, without the bytes already emitted. Bit 31
    /// is a carry into those bytes.
    pub low: u32,
    /// Width of the interval.
    pub range: u32,
}

impl View for RangeEncoder {
    type V = Interval;

    open spec fn view(&self) -> Interval {
        Interval {
            low: digits::be_value(self.emitted()) * INIT_RANGE + self.low,
            range: self.range as int,
            shifts: self.emitted().len(),
        }
    }
}

impl RangeEncoder {
    /// The bytes emitted so far, before any carry out of `low`.
    pub open spec fn emitted(&self) -> Seq<u8> {
        self.settled() + digits::repeat(0xff, self.pending_ffs as nat)
    }

    /// The bytes emitted so far without the trailing 0xff bytes.
    pub open spec fn settled(&self) -> Seq<u8> {
        if self.started {
            self.buf@.push(self.cache)
        } else {
            self.buf@
        }
    }

    /// A carry out of `low` always finds a byte that can take it.
    pub open spec fn carry_safe(&self) -> bool {
        if self.started && self.cache < 0xff {
            self.low + self.range <= 0x1_0000_0000
        } else {
            self.low + self.range <= INIT_RANGE
        }
    }

    /// The encoder is between two symbols.
    pub open spec fn wf(&self) -> bool {
        &&& self.carry_safe()
        &&& TOP < self.range <= INIT_RANGE
        &&& self.emitted().len() <= usize::MAX
        &&& !self.started ==> self.buf@.len() == 0
    }

    /// An encoder that has seen no symbol.
    pub fn new() -> (r: Self)
        ensures
            r.wf(),
            r@ == interval::whole(),
    {
        let r = RangeEncoder {
            buf: Vec::new(),
            pending_ffs: 0,
            cache: 0,
            started: false,
            low: 0,
            range: INIT_RANGE,
        };
        assert(r.emitted() =~= Seq::empty());
        r
    }

    /// Append `n` bytes of value `fill`.
    fn push_run(buf: &mut Vec<u8>, n: usize, fill: u8)
        requires
            old(buf)@.len() + n <= usize::MAX,
        ensures
            final(buf)@ == old(buf)@ + digits::repeat(fill, n as nat),
    {
        let new_len: usize = buf.len() + n;
        buf.resize(new_len, fill);
        assert(buf@ =~= old(buf)@ + digits::repeat(fill, n as nat)) by {
            if n == 0 {
                assert(buf@ =~= old(buf)@.subrange(0, new_len as int));
            } else {
                assert forall|i: int| 0 <= i < old(buf)@.len() implies buf@[i] == old(buf)@[i] by {
                    assert(buf@.subrange(0, old(buf)@.len() as int)[i] == buf@[i]);
                }
            }
        }
    }

    /// Move the top byte of `low` to the emitted bytes.
    fn shift_low(&mut self)
        requires
            old(self).carry_safe(),
            0 < old(self).range <= TOP,
            old(self).emitted().len() < usize::MAX,
            !old(self).started ==> old(self).buf@.len() == 0,
        ensures
            final(self).range == old(self).range,
            final(self)@.low == 256 * old(self)@.low,
            final(self)@.shifts == old(self)@.shifts + 1,
            !final(self).started ==> final(self).buf@.len() == 0,
            final(self).low < INIT_RANGE,
            if final(self).started && final(self).cache < 0xff {
                final(self).low + 256 * final(self).range <= 0x1_0000_0000
            } else {
                final(self).low + 256 * final(self).range <= INIT_RANGE
            },
    {
        let ghost e0 = self.emitted();
        let ghost v0 = digits::be_value(e0);
        let ghost settled0 = self.settled();
        let ghost p = self.pending_ffs as nat;
        let ghost low0 = self.low as int;
        let carry: bool = self.low >= INIT_RANGE;
        let byte: u8 = ((self.low / TOP) % 256) as u8;
        if carry {
            assert(self.started && self.cache < 0xff);
            self.buf.push(self.cache + 1);
            if self.pending_ffs != 0 {
                let n: usize = self.pending_ffs;
                Self::push_run(&mut self.buf, n, 0x00);
                self.pending_ffs = 0;
            } else {
                assert(self.buf@ + digits::repeat(0, p) =~= self.buf@);
            }
            self.cache = byte;
            self.started = true;
            proof {
                lemma_carried(old(self).buf@, old(self).cache, p);
                assert(digits::be_value(self.buf@) == v0 + 1);
                digits::lemma_be_value_push(self.buf@, byte);
                assert(self.emitted() =~= self.buf@.push(byte));
            }
        } else if byte == 0xff {
            self.pending_ffs = self.pending_ffs + 1;
            proof {
                assert(self.emitted() =~= e0.push(0xff));
                digits::lemma_be_value_push(e0, 0xff);
            }
        } else {
            if self.started {
                self.buf.push(self.cache);
            }
            assert(self.buf@ == settled0);
            if self.pending_ffs != 0 {
                let n: usize = self.pending_ffs;
                Self::push_run(&mut self.buf, n, 0xff);
                self.pending_ffs = 0;
            } else {
                assert(self.buf@ + digits::repeat(0xff, p) =~= self.buf@);
            }
            self.cache = byte;
            self.started = true;
            proof {
                assert(self.buf@ == e0);
                digits::lemma_be_value_push(e0, byte);
                assert(self.emitted() =~= e0.push(byte));
            }
        }
        self.low = (self.low % TOP) * 256;
    }

    /// Scale up until the range is above the threshold.
    pub fn renormalise(&mut self)
        requires
            old(self).carry_safe(),
            0 < old(self).range <= INIT_RANGE,
            old(self).emitted().len() + 3 <= usize::MAX,
            !old(self).started ==> old(self).buf@.len() == 0,
        ensures
            final(self).wf(),
            final(self)@ == interval::renormalised(old(self)@),
    {
        let ghost mut j: int = 0;
        proof {
            interval::lemma_renormalised(self@);
        }
        while self.range <= TOP
            invariant
                self.carry_safe(),
                0 < self.range <= INIT_RANGE,
                interval::renormalised(self@) == interval::renormalised(old(self)@),
                !self.started ==> self.buf@.len() == 0,
                0 <= j <= 3,
                j == 0 ==> self.range >= 1,
                j == 1 ==> self.range >= 0x100,
                j == 2 ==> self.range >= 0x1_0000,
                j == 3 ==> self.range > TOP,
                self.emitted().len() == old(self).emitted().len() + j,
                old(self).emitted().len() + 3 <= usize::MAX,
            decreases INIT_RANGE - self.range,
        {
            self.shift_low();
            self.range = self.range * 256;
            proof {
                j = j + 1;
            }
        }
    }

    /// Encode one symbol.
    pub fn encode_symbol(&mut self, cdf: &Cdf, s: usize)
        requires
            old(self).wf(),
            cdf.wf(),
            s < 256,
            cdf@[s as int] > 0,
            interval::mass(cdf@) <= old(self).range,
            old(self)@.shifts + 3 <= usize::MAX,
        ensures
            final(self).wf(),
            final(self)@ == interval::encode_step(cdf@, false, old(self)@, s as int),
    {
        let total: u32 = cdf.total();
        let q: u32 = self.range / total;
        let ghost f = cdf@;
        let ghost e0 = self.emitted();
        proof {
            interval::lemma_share(f, false, self.range as int, s as int);
            interval::lemma_cum_monotone(f, s + 1, 256);
            assert(cdf.cum@[s as int] == interval::cum(f, s as int));
            assert(cdf.cum@[s + 1] == interval::cum(f, s + 1));
        }
        if s == 0 {
            self.range = cdf.freq0 * q;
            assert(self.emitted() == e0);
            self.renormalise();
            return ;
        }
        if s == 255 {
            let lo_scaled: u32 = cdf.cum_top * q;
            self.low = self.low + lo_scaled;
            self.range = (total - cdf.cum_top) * q;
            assert(self.emitted() == e0);
            self.renormalise();
            return ;
        }
        let lo: u32 = cdf.lo(s);
        let freq: u32 = cdf.freq(s);
        self.low = self.low + lo * q;
        self.range = freq * q;
        assert(self.emitted() == e0);
        self.renormalise();
    }

    /// End the stream: the lower end of the interval, followed by a zero
    /// bit.
    pub fn finish(self) -> (r: Vec<u8>)
        requires
            self.wf(),
            self@.shifts + 4 <= usize::MAX,
        ensures
            r@ == interval::flushed(self@),
    {
        let mut buf = self.buf;
        let ghost settled0 = self.settled();
        let ghost p = self.pending_ffs as nat;
        let carry: bool = self.low >= INIT_RANGE;
        let fill: u8 = if carry {
            0x00
        } else {
            0xff
        };
        if self.started {
            let head: u8 = if carry {
                self.cache + 1
            } else {
                self.cache
            };
            buf.push(head);
        }
        Self::push_run(&mut buf, self.pending_ffs, fill);
        let ghost head_bytes = buf@;
        let low: u32 = self.low % INIT_RANGE;
        let t0: u8 = (low / 0x0080_0000) as u8;
        let t1: u8 = ((low / 0x8000) % 256) as u8;
        let t2: u8 = ((low / 0x80) % 256) as u8;
        let t3: u8 = ((low % 0x80) * 2) as u8;
        buf.push(t0);
        buf.push(t1);
        buf.push(t2);
        buf.push(t3);
        proof {
            if carry {
                lemma_carried(self.buf@, self.cache, p);
            }
            assert(digits::be_value(head_bytes) * INIT_RANGE + low == self@.low);
            lemma_tail(head_bytes, low, t0, t1, t2, t3);
            digits::lemma_be_bytes_of_value(buf@);
        }
        buf
    }
}

/// A carry increments the number that the emitted bytes spell.
proof fn lemma_carried(buf: Seq<u8>, cache: u8, p: nat)
    requires
        cache < 0xff,
    ensures
        digits::be_value(buf.push((cache + 1) as u8) + digits::repeat(0, p)) == digits::be_value(
            buf.push(cache) + digits::repeat(0xff, p),
        ) + 1,
{
    let bumped = buf.push((cache + 1) as u8);
    digits::lemma_be_value_push(buf, (cache + 1) as u8);
    digits::lemma_be_value_push(buf, cache);
    digits::lemma_be_value_append(bumped, digits::repeat(0, p));
    digits::lemma_be_value_append(buf.push(cache), digits::repeat(0xff, p));
    digits::lemma_be_value_runs(p);
    let b = digits::be_value(buf.push(cache)) as int;
    let w = digits::pow256(p) as int;
    assert((b + 1) * w == b * w + w) by (nonlinear_arith);
}

/// Four more bytes append 31 bits and a zero bit.
proof fn lemma_tail(head: Seq<u8>, low: u32, t0: u8, t1: u8, t2: u8, t3: u8)
    requires
        low < INIT_RANGE,
        t0 == low as int / 0x0080_0000,
        t1 == (low as int / 0x8000) % 256,
        t2 == (low as int / 0x80) % 256,
        t3 == (low as int % 0x80) * 2,
    ensures
        digits::be_value(head.push(t0).push(t1).push(t2).push(t3)) == 2 * (digits::be_value(head)
            * INIT_RANGE + low),
{
    digits::lemma_be_value_push(head, t0);
    digits::lemma_be_value_push(head.push(t0), t1);
    digits::lemma_be_value_push(head.push(t0).push(t1), t2);
    digits::lemma_be_value_push(head.push(t0).push(t1).push(t2), t3);
    let l = low as int;
    assert(l == (l / 0x0080_0000) * 0x0080_0000 + ((l / 0x8000) % 256) * 0x8000 + ((l / 0x80) % 256)
        * 0x80 + l % 0x80);
}

// ---------------------------------------------------------------------
// Laws
// ---------------------------------------------------------------------

/// Decoding a stream gives back the symbols that were encoded into it,
/// whatever follows the stream.
pub proof fn law_round_trip(f: Seq<u32>, syms: Seq<u8>, src: Seq<u8>)
    requires
        interval::codable(f, syms),
        interval::stream_of(f, false, syms).is_prefix_of(src),
    ensures
        decode_run(src, f, syms.len()) is Some,
        decode_run(src, f, syms.len()).unwrap().0 == syms,
{
    digits::lemma_be_bytes_len(
        (2 * interval::encode_all(f, false, syms).low) as nat,
        interval::encode_all(f, false, syms).shifts + 4,
    );
    lemma_decode_prefix(f, syms, src, syms.len());
    assert(syms.take(syms.len() as int) =~= syms);
}

proof fn lemma_decode_prefix(f: Seq<u32>, syms: Seq<u8>, src: Seq<u8>, n: nat)
    requires
        interval::codable(f, syms),
        interval::stream_of(f, false, syms).is_prefix_of(src),
        src.len() >= 4,
        n <= syms.len(),
    ensures
        decode_run(src, f, n) is Some,
        decode_run(src, f, n).unwrap().0 == syms.take(n as int),
        interval::linked(
            src,
            interval::encode_all(f, false, syms.take(n as int)),
            decode_run(src, f, n).unwrap().1,
        ),
    decreases n,
{
    if n == 0 {
        assert(syms.take(0) =~= Seq::empty());
        interval::lemma_linked_open(src);
    } else {
        let m = (n - 1) as nat;
        lemma_decode_prefix(f, syms, src, m);
        let head = syms.take(m as int);
        let s = syms[m as int] as int;
        assert(syms.take(n as int).drop_last() =~= head);
        assert(syms.take(n as int) =~= head.push(syms[m as int]));
        assert(forall|i: int| 0 <= i < head.len() ==> head[i] == syms[i]);
        interval::lemma_encode_all_range(f, false, head);
        let i = interval::encode_all(f, false, head);
        let w = decode_run(src, f, m).unwrap().1;
        interval::lemma_share(f, false, i.range, s);
        interval::lemma_located(f, false, syms, src, m as int);
        let nar = interval::narrowed(f, false, i, s);
        let q = i.range / interval::mass(f);
        let c = interval::cum(f, s);
        let d = interval::cum(f, s + 1);
        assert(d * q == c * q + f[s] * q) by (nonlinear_arith)
            requires
                d == c + f[s],
        ;
        lemma_target(f, w.low, q, s);
        interval::lemma_cum_monotone(f, s + 1, 256);
        let total = interval::mass(f);
        assert(d * q <= total * q) by (nonlinear_arith)
            requires
                d <= total,
                q >= 1,
        ;
        let w2 = Window { low: w.low - c * q, range: f[s] * q, cursor: w.cursor };
        assert(interval::linked(src, nar, w2));
        interval::lemma_linked_refill(src, nar, w2);
    }
}

/// Call `i` of a run of calls that decode symbols.
pub open spec fn decodes_at(
    src: Seq<u8>,
    f: Seq<u32>,
    windows: Seq<Window>,
    results: Seq<Result<u8>>,
    i: int,
) -> bool {
    decodes(src, f, windows[i], results[i], windows[i + 1])
}

/// Encode some symbols, one call each, and end the stream; then decode the
/// stream, one call for each symbol. Call `i` returns symbol `i`. `states`
/// are the encoder's intervals before, between and after the calls, and
/// `windows` those of the decoder.
pub proof fn law_calls_round_trip(
    f: Seq<u32>,
    syms: Seq<u8>,
    states: Seq<Interval>,
    bytes: Seq<u8>,
    windows: Seq<Window>,
    results: Seq<Result<u8>>,
)
    requires
        interval::codable(f, syms),
        interval::encodes(f, false, syms, states),
        bytes == interval::flushed(states[syms.len() as int]),
        windows.len() == syms.len() + 1,
        windows[0] == interval::opened(bytes),
        results.len() == syms.len(),
        forall|i: int|
            0 <= i < syms.len() ==> #[trigger] decodes_at(bytes, f, windows, results, i),
    ensures
        bytes.len() >= 4,
        forall|i: int| 0 <= i < syms.len() ==> #[trigger] results[i] == Ok::<u8, Error>(syms[i]),
{
    interval::lemma_encodes(f, false, syms, states, syms.len());
    assert(syms.take(syms.len() as int) =~= syms);
    digits::lemma_be_bytes_len(
        (2 * interval::encode_all(f, false, syms).low) as nat,
        interval::encode_all(f, false, syms).shifts + 4,
    );
    assert(bytes.is_prefix_of(bytes));
    assert forall|i: int| 0 <= i < syms.len() implies #[trigger] results[i] == Ok::<u8, Error>(
        syms[i],
    ) by {
        lemma_calls(f, syms, bytes, windows, results, (i + 1) as nat);
        lemma_decode_prefix(f, syms, bytes, i as nat);
        lemma_decode_prefix(f, syms, bytes, (i + 1) as nat);
        lemma_calls(f, syms, bytes, windows, results, i as nat);
        assert(decodes_at(bytes, f, windows, results, i));
        let head = decode_run(bytes, f, i as nat).unwrap().0;
        let next = decode_run(bytes, f, (i + 1) as nat).unwrap().0;
        assert(next == syms.take(i + 1));
        assert(next[i] == syms[i]);
        assert(head.len() == i);
    }
}

/// A run of calls follows the run of steps.
proof fn lemma_calls(
    f: Seq<u32>,
    syms: Seq<u8>,
    bytes: Seq<u8>,
    windows: Seq<Window>,
    results: Seq<Result<u8>>,
    n: nat,
)
    requires
        interval::codable(f, syms),
        interval::stream_of(f, false, syms) == bytes,
        bytes.len() >= 4,
        windows.len() == syms.len() + 1,
        windows[0] == interval::opened(bytes),
        forall|i: int|
            0 <= i < syms.len() ==> #[trigger] decodes_at(bytes, f, windows, results, i),
        n <= syms.len(),
    ensures
        decode_run(bytes, f, n) is Some,
        decode_run(bytes, f, n).unwrap().1 == windows[n as int],
    decreases n,
{
    assert(bytes.is_prefix_of(bytes));
    lemma_decode_prefix(f, syms, bytes, n);
    if n > 0 {
        lemma_calls(f, syms, bytes, windows, results, (n - 1) as nat);
        assert(decodes_at(bytes, f, windows, results, n - 1));
    }
}

} // verus!
