//! Channels: one plane of residuals each.
//!
//! The first byte of a channel selects its form:
//!
//! | Header | Form |
//! | ------ | ---- |
//! | `0x00` | Frequency table, then one range-coded symbol per sample. |
//! | `0x01..=0x03` | Symbol count, frequency table, then that many range-coded symbols, with zero-run escapes of this length. A count of at least the number of samples selects the first form. |
//! | `0x04` | One byte per sample. |
//! | `0x05..=0x07` | Bytes with zero-run escapes of the length `header - 4`. |
//! | `0xff` | One byte for all samples. |
//!
//! Channels of the obsolete RGB frames have forms of their own, in which the
//! escapes apply to the frequency table.

use crate::bits;
use crate::digits;
use crate::error::{Error, Result};
use crate::fibonacci;
use crate::interval;
use crate::legacy_range_coder;
use crate::legacy_range_coder::{CdfLayout, LegacyRangeDecoder};
use crate::range_coder;
use crate::range_coder::{Cdf, RangeDecoder};
use crate::rle;
use crate::wire;
use vstd::prelude::*;

verus! {

/// The form of a channel.
#[derive(Debug, Copy, Clone, PartialEq, Eq, Structural)]
pub enum ChannelHeader {
    /// `0x00`: range-coded samples.
    BareArithmetic,
    /// `0x01..=0x03`: range-coded symbols with zero-run escapes.
    ArithRle {
        /// Zeros before a supplement byte, from 1 to 3.
        escape_len: u8,
    },
    /// `0x04`: plain samples.
    Raw,
    /// `0x05..=0x07`: plain bytes with zero-run escapes.
    RawRle {
        /// Zeros before a supplement byte, from 1 to 3.
        escape_len: u8,
    },
    /// `0xff`: one value for all samples.
    ConstantFill,
}

impl ChannelHeader {
    /// The header byte of a form.
    pub open spec fn byte(self) -> int {
        match self {
            ChannelHeader::BareArithmetic => 0x00,
            ChannelHeader::ArithRle { escape_len } => escape_len as int,
            ChannelHeader::Raw => 0x04,
            ChannelHeader::RawRle { escape_len } => escape_len + 4,
            ChannelHeader::ConstantFill => 0xff,
        }
    }

    /// The escape length, where the form has one, is from 1 to 3.
    pub open spec fn wf(self) -> bool {
        match self {
            ChannelHeader::ArithRle { escape_len } => 1 <= escape_len <= 3,
            ChannelHeader::RawRle { escape_len } => 1 <= escape_len <= 3,
            _ => true,
        }
    }

    /// `b` is a header byte.
    pub open spec fn is_header(b: u8) -> bool {
        b <= 0x07 || b == 0xff
    }

    /// The form that a header byte selects.
    pub fn from_byte(b: u8) -> (r: Result<Self>)
        ensures
            match r {
                Ok(h) => Self::is_header(b) && h.wf() && h.byte() == b,
                Err(e) => !Self::is_header(b) && e == Error::BadChannelHeader(b),
            },
    {
        if b == 0x00 {
            Ok(ChannelHeader::BareArithmetic)
        } else if b <= 0x03 {
            Ok(ChannelHeader::ArithRle { escape_len: b })
        } else if b == 0x04 {
            Ok(ChannelHeader::Raw)
        } else if b <= 0x07 {
            Ok(ChannelHeader::RawRle { escape_len: b - 4 })
        } else if b == 0xff {
            Ok(ChannelHeader::ConstantFill)
        } else {
            Err(Error::BadChannelHeader(b))
        }
    }

    /// The header byte of this form.
    pub fn to_byte(self) -> (r: u8)
        requires
            self.wf(),
        ensures
            r == self.byte(),
            Self::is_header(r),
    {
        match self {
            ChannelHeader::BareArithmetic => 0x00,
            ChannelHeader::ArithRle { escape_len } => escape_len,
            ChannelHeader::Raw => 0x04,
            ChannelHeader::RawRle { escape_len } => escape_len + 4,
            ChannelHeader::ConstantFill => 0xff,
        }
    }

    /// Whether this form is range-coded.
    pub fn uses_arithmetic_body(self) -> (r: bool)
        ensures
            r == (self is BareArithmetic || self is ArithRle),
    {
        match self {
            ChannelHeader::BareArithmetic => true,
            ChannelHeader::ArithRle { .. } => true,
            _ => false,
        }
    }

    /// Whether this form has zero-run escapes.
    pub fn uses_rle_postprocess(self) -> (r: bool)
        ensures
            r == (self is ArithRle || self is RawRle),
    {
        match self {
            ChannelHeader::ArithRle { .. } => true,
            ChannelHeader::RawRle { .. } => true,
            _ => false,
        }
    }

    /// The escape length of this form, where it has one.
    pub fn rle_escape_len(self) -> (r: Option<u8>)
        ensures
            match self {
                ChannelHeader::ArithRle { escape_len } => r == Some(escape_len),
                ChannelHeader::RawRle { escape_len } => r == Some(escape_len),
                _ => r is None,
            },
    {
        match self {
            ChannelHeader::ArithRle { escape_len } => Some(escape_len),
            ChannelHeader::RawRle { escape_len } => Some(escape_len),
            _ => None,
        }
    }
}

/// Forms and header bytes correspond one to one.
pub proof fn law_header_byte_injective(a: ChannelHeader, b: ChannelHeader)
    requires
        a.wf(),
        b.wf(),
        a.byte() == b.byte(),
    ensures
        a == b,
        ChannelHeader::is_header(a.byte() as u8),
{
}

// ---------------------------------------------------------------------
// What a channel stands for
// ---------------------------------------------------------------------

/// The `n` range-coded symbols behind the frequency table at `offset`.
pub open spec fn coded_symbols(ch: Seq<u8>, offset: int, n: nat) -> Result<Seq<u8>> {
    match fibonacci::read_table(bits::unpack(ch.skip(offset)), 0, Seq::empty()) {
        Err(e) => Err(e),
        Ok((f, p)) => {
            let body = ch.skip(offset + bits::bytes_for(p as nat));
            if interval::mass(f) == 0 {
                Err(Error::EmptyProbabilityTable)
            } else if interval::mass(f) > u32::MAX {
                Err(Error::ProbabilityTableOverflow)
            } else if body.len() < 4 {
                Err(Error::Truncated { context: "range-coder priming bytes" })
            } else {
                match range_coder::decode_run(body, f, n) {
                    None => Err(Error::ProbabilityTotalExceedsRange),
                    Some((syms, _)) => Ok(syms),
                }
            }
        },
    }
}

/// The plane of a channel of range-coded samples. Four zero bytes behind the
/// header stand for a plane of zeros.
pub open spec fn bare_plane(ch: Seq<u8>, n: nat) -> Result<Seq<u8>> {
    if ch.len() >= 5 && wire::le32(ch, 1) == 0 {
        Ok(digits::repeat(0, n))
    } else {
        coded_symbols(ch, 1, n)
    }
}

/// The plane of `n` samples that a channel stands for, or why it stands for
/// none.
pub open spec fn plane_of(ch: Seq<u8>, n: nat) -> Result<Seq<u8>> {
    if ch.len() == 0 {
        Err(Error::Truncated { context: "channel header byte" })
    } else if ch[0] == 0x00 {
        bare_plane(ch, n)
    } else if ch[0] <= 0x03 {
        if ch.len() < 5 {
            Err(Error::Truncated { context: "header 0x01..0x03 u32 length field" })
        } else if wire::le32(ch, 1) >= n {
            bare_plane(ch, n)
        } else {
            match coded_symbols(ch, 5, wire::le32(ch, 1)) {
                Err(e) => Err(e),
                Ok(syms) => match rle::expand(syms, ch[0] as nat, n) {
                    Err(e) => Err(e),
                    Ok((plane, _)) => Ok(plane),
                },
            }
        }
    } else if ch[0] == 0x04 {
        if ch.len() < 1 + n {
            Err(Error::Truncated { context: "header 0x04 raw plane data" })
        } else {
            Ok(ch.subrange(1, 1 + n as int))
        }
    } else if ch[0] <= 0x07 {
        match rle::expand(ch.skip(1), (ch[0] - 4) as nat, n) {
            Err(e) => Err(e),
            Ok((plane, _)) => Ok(plane),
        }
    } else if ch[0] == 0xff {
        if ch.len() < 2 {
            Err(Error::Truncated { context: "header 0xff fill byte" })
        } else {
            Ok(digits::repeat(ch[1], n))
        }
    } else {
        Err(Error::BadChannelHeader(ch[0]))
    }
}

/// The `n` symbols of the obsolete range coder at `offset`, with the
/// frequency table `f`.
pub open spec fn legacy_symbols(ch: Seq<u8>, offset: int, f: Seq<u32>, n: nat) -> Result<Seq<u8>> {
    let body = ch.skip(offset);
    let layout = if legacy_range_coder::rare_cluster(f) {
        CdfLayout::PairPacked
    } else {
        CdfLayout::Flat
    };
    if ch.len() < offset {
        Err(Error::Truncated { context: "legacy type-7 channel body offset past end" })
    } else if !legacy_range_coder::rescalable(f) {
        Err(Error::EmptyProbabilityTable)
    } else if body.len() < 4 {
        Err(Error::Truncated { context: "legacy range-coder priming bytes" })
    } else {
        match legacy_range_coder::decode_run(
            body,
            legacy_range_coder::rescaled(f),
            layout,
            n,
        ) {
            None => Err(Error::EmptyProbabilityTable),
            Some((syms, _)) => Ok(syms),
        }
    }
}

/// A byte is left out behind a frequency table that fills its last byte.
pub open spec fn reserved(p: int) -> int {
    if p % 8 == 0 {
        1
    } else {
        0
    }
}

/// The plane of an obsolete channel with a plain frequency table.
pub open spec fn legacy_bare_plane(ch: Seq<u8>, n: nat) -> Result<Seq<u8>> {
    if ch.len() < 2 {
        Err(Error::Truncated { context: "legacy type-7 channel prefix" })
    } else if ch[1] != 0 {
        Err(Error::BadChannelHeader(ch[1]))
    } else {
        match legacy_range_coder::read_table(bits::unpack(ch.skip(2)), 0, Seq::empty()) {
            Err(e) => Err(e),
            Ok((f, p)) => legacy_symbols(ch, 2 + bits::bytes_for(p as nat) + reserved(p), f, n),
        }
    }
}

/// The plane of an obsolete channel whose frequency table has zero-run
/// escapes.
pub open spec fn legacy_escaped_plane(ch: Seq<u8>, n: nat) -> Result<Seq<u8>> {
    let len = wire::le32(ch, 1);
    if ch.len() < 5 {
        Err(Error::Truncated { context: "legacy type-7 RLE-then-Fib u32 length field" })
    } else if len == 0 || len > 256 {
        Err(Error::BadChannelHeader(ch[0]))
    } else {
        match rle::expand(ch.skip(5), ch[0] as nat, len) {
            Err(e) => Err(e),
            Ok((buf, used)) => match legacy_range_coder::read_table(
                bits::unpack(buf),
                0,
                Seq::empty(),
            ) {
                Err(e) => Err(e),
                Ok((f, p)) => legacy_symbols(ch, 5 + used + reserved(p), f, n),
            },
        }
    }
}

/// The plane of `n` samples that an obsolete channel stands for, or why it
/// stands for none.
#[verifier::opaque]
pub open spec fn legacy_plane_of(ch: Seq<u8>, n: nat) -> Result<Seq<u8>> {
    if ch.len() == 0 {
        Err(Error::Truncated { context: "legacy type-7 channel header" })
    } else if ch[0] == 0x00 {
        legacy_bare_plane(ch, n)
    } else if ch[0] <= 0x03 {
        legacy_escaped_plane(ch, n)
    } else {
        Err(Error::BadChannelHeader(ch[0]))
    }
}

/// A result carries what a specification says, byte strings by their
/// contents.
pub open spec fn yields(r: Result<Vec<u8>>, s: Result<Seq<u8>>) -> bool {
    match s {
        Ok(p) => r is Ok && r->Ok_0@ == p,
        Err(e) => r == Err::<Vec<u8>, Error>(e),
    }
}

// ---------------------------------------------------------------------
// Decoding
// ---------------------------------------------------------------------

/// Decode one channel into `n_pixels` residuals.
pub fn decode_channel(channel: &[u8], n_pixels: usize) -> (r: Result<Vec<u8>>)
    ensures
        yields(r, plane_of(channel@, n_pixels as nat)),
        r is Ok ==> r->Ok_0@.len() == n_pixels,
{
    if channel.len() == 0 {
        return Err(Error::Truncated { context: "channel header byte" });
    }
    let header: u8 = channel[0];
    if header == 0x00 {
        decode_arith_no_rle(channel, n_pixels)
    } else if header <= 0x03 {
        if channel.len() < 5 {
            return Err(Error::Truncated { context: "header 0x01..0x03 u32 length field" });
        }
        let count: u32 = wire::read_le32(channel, 1);
        if count as u64 >= n_pixels as u64 {
            decode_arith_no_rle(channel, n_pixels)
        } else {
            decode_arith_rle(channel, count as usize, n_pixels, header as usize)
        }
    } else if header == 0x04 {
        if channel.len() - 1 < n_pixels {
            return Err(Error::Truncated { context: "header 0x04 raw plane data" });
        }
        Ok(wire::copy_range(channel, 1, 1 + n_pixels))
    } else if header <= 0x07 {
        match rle::expand_raw(wire::tail_from(channel, 1), (header - 4) as usize, n_pixels) {
            Ok((plane, _)) => Ok(plane),
            Err(e) => Err(e),
        }
    } else if header == 0xff {
        if channel.len() < 2 {
            return Err(Error::Truncated { context: "header 0xff fill byte" });
        }
        Ok(wire::filled(channel[1], n_pixels))
    } else {
        Err(Error::BadChannelHeader(header))
    }
}

proof fn lemma_run_len(src: Seq<u8>, f: Seq<u32>, n: nat)
    ensures
        range_coder::decode_run(src, f, n) is Some ==> range_coder::decode_run(
            src,
            f,
            n,
        ).unwrap().0.len() == n,
        forall|m: nat|
            m <= n && range_coder::decode_run(src, f, n) is Some
                ==> #[trigger] range_coder::decode_run(src, f, m) is Some,
    decreases n,
{
    if n > 0 {
        lemma_run_len(src, f, (n - 1) as nat);
    }
}

/// Decode `count` range-coded symbols behind the frequency table at
/// `prefix_offset`.
fn decode_symbols(channel: &[u8], prefix_offset: usize, count: usize) -> (r: Result<Vec<u8>>)
    requires
        prefix_offset <= channel@.len(),
    ensures
        yields(r, coded_symbols(channel@, prefix_offset as int, count as nat)),
        r is Ok ==> r->Ok_0@.len() == count,
{
    let prefix = wire::tail_from(channel, prefix_offset);
    let (freq, prefix_bytes) = match fibonacci::decode_freq_table(prefix) {
        Ok(x) => x,
        Err(e) => {
            return Err(e);
        },
    };
    let cdf = match Cdf::from_frequencies(&freq) {
        Ok(c) => c,
        Err(e) => {
            proof {
                interval::lemma_cum_monotone(freq@, 0, 256);
            }
            return Err(e);
        },
    };
    assert(prefix_offset + prefix_bytes <= channel.len());
    let body = wire::tail_from(channel, prefix_offset + prefix_bytes);
    match RangeDecoder::new(body) {
        Ok(dec) => take_symbols(dec, &cdf, count),
        Err(e) => Err(e),
    }
}

/// Decode the first `count` symbols of a stream.
fn take_symbols(dec: RangeDecoder, cdf: &Cdf, count: usize) -> (r: Result<Vec<u8>>)
    requires
        dec.wf(),
        cdf.wf(),
        dec@ == interval::opened(dec.src@),
    ensures
        match range_coder::decode_run(dec.src@, cdf@, count as nat) {
            Some((syms, _)) => r is Ok && r->Ok_0@ == syms && syms.len() == count,
            None => r == Err::<Vec<u8>, Error>(Error::ProbabilityTotalExceedsRange),
        },
{
    let mut d = dec;
    let ghost body = dec.src@;
    let mut symbols: Vec<u8> = Vec::with_capacity(count);
    let mut i: usize = 0;
    while i < count
        invariant
            i <= count,
            d.wf(),
            cdf.wf(),
            d.src@ == body,
            body == dec.src@,
            symbols@.len() == i,
            range_coder::decode_run(body, cdf@, i as nat) == Some((symbols@, d@)),
        decreases count - i,
    {
        match d.decode_symbol(cdf) {
            Ok(s) => {
                symbols.push(s);
            },
            Err(e) => {
                proof {
                    lemma_run_len(body, cdf@, count as nat);
                    assert(range_coder::decode_run(body, cdf@, (i + 1) as nat) is None);
                }
                return Err(e);
            },
        }
        i = i + 1;
    }
    Ok(symbols)
}

/// Decode a channel of range-coded samples.
fn decode_arith_no_rle(channel: &[u8], n_pixels: usize) -> (r: Result<Vec<u8>>)
    requires
        channel@.len() >= 1,
    ensures
        yields(r, bare_plane(channel@, n_pixels as nat)),
        r is Ok ==> r->Ok_0@.len() == n_pixels,
{
    if channel.len() >= 5 && wire::read_le32(channel, 1) == 0 {
        return Ok(wire::filled(0, n_pixels));
    }
    decode_symbols(channel, 1, n_pixels)
}

/// Decode a channel of range-coded symbols with zero-run escapes.
fn decode_arith_rle(
    channel: &[u8],
    count: usize,
    n_pixels: usize,
    escape_len: usize,
) -> (r: Result<Vec<u8>>)
    requires
        channel@.len() >= 5,
        1 <= escape_len <= 3,
    ensures
        yields(
            r,
            match coded_symbols(channel@, 5, count as nat) {
                Err(e) => Err(e),
                Ok(syms) => match rle::expand(syms, escape_len as nat, n_pixels as nat) {
                    Err(e) => Err(e),
                    Ok((plane, _)) => Ok(plane),
                },
            },
        ),
        r is Ok ==> r->Ok_0@.len() == n_pixels,
{
    let symbols = match decode_symbols(channel, 5, count) {
        Ok(s) => s,
        Err(e) => {
            return Err(e);
        },
    };
    match rle::expand_raw(symbols.as_slice(), escape_len, n_pixels) {
        Ok((plane, _)) => Ok(plane),
        Err(e) => Err(e),
    }
}

/// Decode one channel of an obsolete RGB frame into `n_pixels` residuals.
pub fn decode_legacy_channel(channel: &[u8], n_pixels: usize) -> (r: Result<Vec<u8>>)
    ensures
        yields(r, legacy_plane_of(channel@, n_pixels as nat)),
        r is Ok ==> r->Ok_0@.len() == n_pixels,
{
    reveal(legacy_plane_of);
    if channel.len() == 0 {
        return Err(Error::Truncated { context: "legacy type-7 channel header" });
    }
    let header: u8 = channel[0];
    if header == 0x00 {
        decode_legacy_bare_fib(channel, n_pixels)
    } else if header <= 0x03 {
        decode_legacy_rle_then_fib(channel, n_pixels)
    } else {
        Err(Error::BadChannelHeader(header))
    }
}

/// Decode an obsolete channel with a plain frequency table.
fn decode_legacy_bare_fib(channel: &[u8], n_pixels: usize) -> (r: Result<Vec<u8>>)
    ensures
        yields(r, legacy_bare_plane(channel@, n_pixels as nat)),
        r is Ok ==> r->Ok_0@.len() == n_pixels,
{
    if channel.len() < 2 {
        return Err(Error::Truncated { context: "legacy type-7 channel prefix" });
    }
    let inner: u8 = channel[1];
    if inner != 0x00 {
        return Err(Error::BadChannelHeader(inner));
    }
    let (freq, fib_bytes, aligned) = match legacy_range_coder::decode_legacy_freq_table(
        wire::tail_from(channel, 2),
    ) {
        Ok(x) => x,
        Err(e) => {
            return Err(e);
        },
    };
    legacy_decode_body(channel, 2 + fib_bytes, aligned, &freq, n_pixels)
}

/// Decode an obsolete channel whose frequency table has zero-run escapes.
fn decode_legacy_rle_then_fib(channel: &[u8], n_pixels: usize) -> (r: Result<Vec<u8>>)
    requires
        channel@.len() >= 1,
        1 <= channel@[0] <= 3,
    ensures
        yields(r, legacy_escaped_plane(channel@, n_pixels as nat)),
        r is Ok ==> r->Ok_0@.len() == n_pixels,
{
    let escape_len: usize = channel[0] as usize;
    if channel.len() < 5 {
        return Err(Error::Truncated { context: "legacy type-7 RLE-then-Fib u32 length field" });
    }
    let len: u32 = wire::read_le32(channel, 1);
    if len == 0 || len > 256 {
        return Err(Error::BadChannelHeader(channel[0]));
    }
    let (buf, used) = match rle::expand_raw(
        wire::tail_from(channel, 5),
        escape_len,
        len as usize,
    ) {
        Ok(x) => x,
        Err(e) => {
            return Err(e);
        },
    };
    let (freq, _, aligned) = match legacy_range_coder::decode_legacy_freq_table(buf.as_slice()) {
        Ok(x) => x,
        Err(e) => {
            return Err(e);
        },
    };
    legacy_decode_body(channel, 5 + used, aligned, &freq, n_pixels)
}

proof fn lemma_legacy_run_len(src: Seq<u8>, g: Seq<u32>, layout: CdfLayout, n: nat)
    ensures
        legacy_range_coder::decode_run(src, g, layout, n) is Some
            ==> legacy_range_coder::decode_run(src, g, layout, n).unwrap().0.len() == n,
        forall|m: nat|
            m <= n && legacy_range_coder::decode_run(src, g, layout, n) is Some
                ==> #[trigger] legacy_range_coder::decode_run(src, g, layout, m) is Some,
    decreases n,
{
    if n > 0 {
        lemma_legacy_run_len(src, g, layout, (n - 1) as nat);
    }
}

/// Decode the symbols behind a frequency table that ends at `table_end`.
fn legacy_decode_body(
    channel: &[u8],
    table_end: usize,
    aligned: bool,
    freq: &[u32; 256],
    n_pixels: usize,
) -> (r: Result<Vec<u8>>)
    requires
        table_end <= channel@.len(),
    ensures
        yields(
            r,
            legacy_symbols(
                channel@,
                table_end + if aligned {
                    1int
                } else {
                    0int
                },
                freq@,
                n_pixels as nat,
            ),
        ),
        r is Ok ==> r->Ok_0@.len() == n_pixels,
{
    if aligned && table_end == channel.len() {
        return Err(Error::Truncated { context: "legacy type-7 channel body offset past end" });
    }
    let body_offset: usize = if aligned {
        table_end + 1
    } else {
        table_end
    };
    let body = wire::tail_from(channel, body_offset);
    let ghost g = legacy_range_coder::rescaled(freq@);
    proof {
        if legacy_range_coder::rescalable(freq@) {
            legacy_range_coder::law_rescaled(freq@);
            legacy_range_coder::lemma_table_of_flat(g);
            legacy_range_coder::lemma_table_of_gapped(g);
        }
    }
    let rare: bool = legacy_range_coder::is_rare_symbol_cluster(freq);
    let ghost layout = if rare {
        CdfLayout::PairPacked
    } else {
        CdfLayout::Flat
    };
    let opened = if rare {
        match legacy_range_coder::build_legacy_pair_packed_cdf(freq) {
            Ok((cdf, total)) => LegacyRangeDecoder::new_pair_packed(body, cdf, total),
            Err(e) => {
                return Err(e);
            },
        }
    } else {
        match legacy_range_coder::build_legacy_cdf(freq) {
            Ok((cdf, total)) => LegacyRangeDecoder::new(body, cdf, total),
            Err(e) => {
                return Err(e);
            },
        }
    };
    match opened {
        Ok(dec) => take_legacy_symbols(dec, n_pixels),
        Err(e) => Err(e),
    }
}

/// Decode the first `count` symbols of an obsolete stream.
fn take_legacy_symbols(dec: LegacyRangeDecoder, count: usize) -> (r: Result<Vec<u8>>)
    requires
        dec.wf(),
        dec@ == interval::opened(dec.src@),
    ensures
        match legacy_range_coder::decode_run(dec.src@, dec.table(), dec.layout, count as nat) {
            Some((syms, _)) => r is Ok && r->Ok_0@ == syms && syms.len() == count,
            None => r == Err::<Vec<u8>, Error>(Error::EmptyProbabilityTable),
        },
{
    let ghost body = dec.src@;
    let ghost g = dec.table();
    let ghost layout = dec.layout;
    let mut d = dec;
    let mut out: Vec<u8> = Vec::with_capacity(count);
    let mut i: usize = 0;
    while i < count
        invariant
            i <= count,
            d.wf(),
            d.src@ == body,
            d.layout == layout,
            d.table() == g,
            body == dec.src@,
            g == dec.table(),
            layout == dec.layout,
            out@.len() == i,
            legacy_range_coder::decode_run(body, g, layout, i as nat) == Some((out@, d@)),
        decreases count - i,
    {
        match d.decode_byte() {
            Ok(s) => {
                out.push(s);
            },
            Err(e) => {
                proof {
                    lemma_legacy_run_len(body, g, layout, count as nat);
                    assert(legacy_range_coder::decode_run(body, g, layout, (i + 1) as nat) is None);
                }
                return Err(e);
            },
        }
        i = i + 1;
    }
    Ok(out)
}

/// A channel that decodes gives a plane of exactly as many samples as were
/// asked for.
pub proof fn law_plane_len(ch: Seq<u8>, n: nat)
    ensures
        plane_of(ch, n) matches Ok(p) ==> p.len() == n,
{
    lemma_symbols_len(ch, 1, n);
    if 1 <= ch[0] <= 3 {
        let count = wire::le32(ch, 1);
        lemma_symbols_len(ch, 5, count);
        if coded_symbols(ch, 5, count) is Ok {
            rle::law_expanded_len(coded_symbols(ch, 5, count).unwrap(), ch[0] as nat, n);
        }
    }
    if 5 <= ch[0] <= 7 {
        rle::law_expanded_len(ch.skip(1), (ch[0] - 4) as nat, n);
    }
}

/// An obsolete channel that decodes gives a plane of exactly as many samples
/// as were asked for.
pub proof fn law_legacy_plane_len(ch: Seq<u8>, n: nat)
    ensures
        legacy_plane_of(ch, n) matches Ok(p) ==> p.len() == n,
{
    reveal(legacy_plane_of);
    assert forall|offset: int, f: Seq<u32>| #[trigger]
        legacy_symbols(ch, offset, f, n) is Ok implies legacy_symbols(
        ch,
        offset,
        f,
        n,
    )->Ok_0.len() == n by {
        let layout = if legacy_range_coder::rare_cluster(f) {
            CdfLayout::PairPacked
        } else {
            CdfLayout::Flat
        };
        lemma_legacy_run_len(ch.skip(offset), legacy_range_coder::rescaled(f), layout, n);
    }
}

/// As many symbols are decoded as were asked for.
proof fn lemma_symbols_len(ch: Seq<u8>, offset: int, n: nat)
    ensures
        coded_symbols(ch, offset, n) matches Ok(s) ==> s.len() == n,
{
    match fibonacci::read_table(bits::unpack(ch.skip(offset)), 0, Seq::empty()) {
        Err(_) => {},
        Ok((f, p)) => {
            lemma_run_len(ch.skip(offset + bits::bytes_for(p as nat)), f, n);
        },
    }
}

} // verus!
