//! Writing channels.

use crate::bits;
use crate::channel;
use crate::digits;
use crate::error::Error;
use crate::fibonacci;
use crate::histogram;
use crate::histogram::MAX_MODERN_TOTAL;
use crate::interval;
use crate::range_coder;
use crate::range_coder::{Cdf, RangeEncoder};
use crate::rle;
use crate::wire;
use vstd::prelude::*;

verus! {

/// The buffers of a plane of `n` samples can be addressed.
pub open spec fn addressable(n: nat) -> bool {
    4 * n + 16 <= usize::MAX
}

/// The frequency table that a run of symbols is coded with.
pub open spec fn table_for(syms: Seq<u8>) -> Seq<u32> {
    histogram::capped(histogram::histogram(syms), MAX_MODERN_TOTAL as int)
}

/// A run of symbols with its frequency table.
pub open spec fn coded(syms: Seq<u8>) -> Seq<u8> {
    fibonacci::table_bytes(table_for(syms)) + interval::stream_of(table_for(syms), false, syms)
}

/// The channel that fills a plane with one value.
pub open spec fn fill_form(b: u8) -> Seq<u8> {
    seq![0xffu8, b]
}

/// The channel of range-coded samples.
pub open spec fn bare_form(p: Seq<u8>) -> Seq<u8> {
    seq![0x00u8] + coded(p)
}

/// The channel of plain samples.
pub open spec fn raw_form(p: Seq<u8>) -> Seq<u8> {
    seq![0x04u8] + p
}

/// The channel of plain bytes with zero-run escapes.
pub open spec fn raw_rle_form(p: Seq<u8>, e: nat) -> Seq<u8> {
    seq![(e + 4) as u8] + rle::contract(p, e)
}

/// The channel of range-coded symbols with zero-run escapes.
pub open spec fn arith_rle_form(p: Seq<u8>, e: nat) -> Seq<u8> {
    seq![e as u8] + wire::le32_bytes(rle::contract(p, e).len()) + coded(rle::contract(p, e))
}

/// The escapes make the plane shorter and leave at least two different
/// symbols, and 32 bits can count them.
pub open spec fn arith_rle_legal(p: Seq<u8>, e: nat) -> bool {
    let syms = rle::contract(p, e);
    0 < syms.len() < p.len() && syms.len() <= u32::MAX && !histogram::uniform(syms)
}

/// The shorter of two channels, the first where both are as long.
pub open spec fn shorter(a: Seq<u8>, b: Seq<u8>) -> Seq<u8> {
    if b.len() < a.len() {
        b
    } else {
        a
    }
}

/// What [`encode_channel_simple`] writes.
pub open spec fn simple_form(p: Seq<u8>) -> Seq<u8> {
    if p.len() == 0 {
        fill_form(0)
    } else if histogram::uniform(p) {
        fill_form(p[0])
    } else {
        shorter(bare_form(p), raw_form(p))
    }
}

/// What [`encode_channel_arith_rle`] writes.
pub open spec fn arith_rle_or_simple(p: Seq<u8>, e: nat) -> Seq<u8> {
    if arith_rle_legal(p, e) {
        arith_rle_form(p, e)
    } else {
        simple_form(p)
    }
}

/// The shorter of a channel and the one with escapes of length `e`, where
/// that is legal.
pub open spec fn try_arith_rle(best: Seq<u8>, p: Seq<u8>, e: nat) -> Seq<u8> {
    if arith_rle_legal(p, e) {
        shorter(best, arith_rle_form(p, e))
    } else {
        best
    }
}

/// What [`encode_channel_best`] writes: the shortest of all forms, the one
/// with the lowest header where several are as short.
pub open spec fn best_form(p: Seq<u8>) -> Seq<u8> {
    if p.len() == 0 {
        fill_form(0)
    } else if histogram::uniform(p) {
        fill_form(p[0])
    } else {
        let a = try_arith_rle(try_arith_rle(try_arith_rle(bare_form(p), p, 1), p, 2), p, 3);
        let b = shorter(a, raw_form(p));
        shorter(shorter(shorter(b, raw_rle_form(p, 1)), raw_rle_form(p, 2)), raw_rle_form(p, 3))
    }
}

/// The table of a run of symbols codes the run.
pub proof fn lemma_table_codes(syms: Seq<u8>)
    requires
        syms.len() > 0,
    ensures
        interval::codable(table_for(syms), syms),
        forall|i: int| 0 <= i < 256 ==> #[trigger] table_for(syms)[i] < u32::MAX,
{
    let h = histogram::histogram(syms);
    let t = table_for(syms);
    histogram::lemma_histogram_positive(syms);
    histogram::lemma_in_use_bound(h, 256);
    histogram::law_capped(h, MAX_MODERN_TOTAL as int);
    assert forall|i: int| 0 <= i < syms.len() implies t[#[trigger] syms[i] as int] > 0 by {
        assert(h[syms[i] as int] > 0);
    }
    crate::scaling::lemma_entries_below_mass(t);
    let s = syms[0] as int;
    assert(t[s] > 0);
    assert(t[s] <= interval::mass(t));
}

/// Range-code a run of symbols behind its frequency table.
fn encode_symbols(symbols: &[u8]) -> (out: Vec<u8>)
    requires
        symbols@.len() > 0,
        3 * symbols@.len() + 4 <= usize::MAX,
    ensures
        out@ == coded(symbols@),
{
    let freq: [u32; 256] = histogram::histogram_from_plane(symbols);
    proof {
        histogram::lemma_in_use_bound(freq@, 256);
    }
    let freq: [u32; 256] = histogram::rescale_to_max_total(&freq, MAX_MODERN_TOTAL);
    proof {
        lemma_table_codes(symbols@);
    }
    let ghost t = table_for(symbols@);
    let body = encode_body(symbols, &freq);
    let prefix = fibonacci::encode_freq_table(&freq);
    let mut out: Vec<u8> = Vec::with_capacity(prefix.len());
    wire::push_all(&mut out, prefix.as_slice());
    wire::push_all(&mut out, body.as_slice());
    assert(out@ =~= coded(symbols@));
    out
}

/// Range-code a run of symbols.
pub fn encode_body(symbols: &[u8], freq: &[u32; 256]) -> (body: Vec<u8>)
    requires
        interval::codable(freq@, symbols@),
        3 * symbols@.len() + 4 <= usize::MAX,
    ensures
        body@ == interval::stream_of(freq@, false, symbols@),
{
    let cdf = match Cdf::from_frequencies(freq) {
        Ok(c) => c,
        Err(_) => {
            assert(false);
            return Vec::new();
        },
    };
    let mut enc = RangeEncoder::new();
    let mut i: usize = 0;
    assert(symbols@.take(0) =~= Seq::<u8>::empty());
    while i < symbols.len()
        invariant
            i <= symbols@.len(),
            interval::codable(freq@, symbols@),
            3 * symbols@.len() + 4 <= usize::MAX,
            cdf.wf(),
            cdf@ == freq@,
            enc.wf(),
            enc@ == interval::encode_all(freq@, false, symbols@.take(i as int)),
        decreases symbols@.len() - i,
    {
        proof {
            let head = symbols@.take(i as int);
            assert(forall|k: int| 0 <= k < head.len() ==> head[k] == symbols@[k]);
            interval::lemma_encode_all_range(freq@, false, head);
            assert(symbols@.take(i + 1).drop_last() =~= head);
            assert(freq@[symbols@[i as int] as int] > 0);
        }
        enc.encode_symbol(&cdf, symbols[i] as usize);
        i = i + 1;
    }
    proof {
        assert(symbols@.take(symbols@.len() as int) =~= symbols@);
        interval::lemma_encode_all_range(freq@, false, symbols@);
    }
    enc.finish()
}

/// Write a plane with the shorter of the range-coded and the plain form.
pub fn encode_channel_simple(plane: &[u8]) -> (out: Vec<u8>)
    requires
        addressable(plane@.len()),
    ensures
        out@ == simple_form(plane@),
{
    if plane.len() == 0 {
        return fill_channel(0);
    }
    if histogram::is_uniform(plane) {
        return fill_channel(plane[0]);
    }
    let out = build_header_zero(plane);
    let raw = build_header_raw(plane);
    if raw.len() < out.len() {
        raw
    } else {
        out
    }
}

/// The channel that fills a plane with one value.
fn fill_channel(b: u8) -> (out: Vec<u8>)
    ensures
        out@ == fill_form(b),
{
    let mut out: Vec<u8> = Vec::new();
    out.push(0xff);
    out.push(b);
    assert(out@ =~= fill_form(b));
    out
}

/// The channel of range-coded samples.
fn build_header_zero(plane: &[u8]) -> (out: Vec<u8>)
    requires
        plane@.len() > 0,
        addressable(plane@.len()),
    ensures
        out@ == bare_form(plane@),
{
    let body = encode_symbols(plane);
    let mut out: Vec<u8> = Vec::with_capacity(body.len());
    out.push(0x00);
    wire::push_all(&mut out, body.as_slice());
    assert(out@ =~= bare_form(plane@));
    out
}

/// The channel of plain samples.
fn build_header_raw(plane: &[u8]) -> (out: Vec<u8>)
    ensures
        out@ == raw_form(plane@),
{
    let mut out: Vec<u8> = Vec::with_capacity(plane.len());
    out.push(0x04);
    wire::push_all(&mut out, plane);
    assert(out@ =~= raw_form(plane@));
    out
}

/// The channel of range-coded symbols with zero-run escapes, where that is
/// legal.
fn build_header_arith_rle(plane: &[u8], escape_len: usize) -> (r: Option<Vec<u8>>)
    requires
        1 <= escape_len <= 3,
        addressable(plane@.len()),
    ensures
        match r {
            Some(out) => arith_rle_legal(plane@, escape_len as nat) && out@ == arith_rle_form(
                plane@,
                escape_len as nat,
            ),
            None => !arith_rle_legal(plane@, escape_len as nat),
        },
{
    let symbols = rle::contract_raw(plane, escape_len);
    if symbols.len() == 0 || symbols.len() >= plane.len() {
        return None;
    }
    if symbols.len() as u64 > u32::MAX as u64 {
        return None;
    }
    if histogram::is_uniform(symbols.as_slice()) {
        return None;
    }
    let body = encode_symbols(symbols.as_slice());
    let mut out: Vec<u8> = Vec::with_capacity(body.len());
    out.push(escape_len as u8);
    wire::push_le32(&mut out, symbols.len());
    wire::push_all(&mut out, body.as_slice());
    assert(out@ =~= arith_rle_form(plane@, escape_len as nat));
    Some(out)
}

/// Write a plane as range-coded symbols with zero-run escapes, or with
/// [`encode_channel_simple`] where the escapes do not pay.
pub fn encode_channel_arith_rle(plane: &[u8], escape_len: usize) -> (out: Vec<u8>)
    requires
        1 <= escape_len <= 3,
        addressable(plane@.len()),
    ensures
        out@ == arith_rle_or_simple(plane@, escape_len as nat),
{
    match build_header_arith_rle(plane, escape_len) {
        Some(out) => out,
        None => encode_channel_simple(plane),
    }
}

/// Write a plane as plain bytes with zero-run escapes.
pub fn encode_channel_raw_rle(plane: &[u8], escape_len: usize) -> (out: Vec<u8>)
    requires
        1 <= escape_len <= 3,
        addressable(plane@.len()),
    ensures
        out@ == raw_rle_form(plane@, escape_len as nat),
{
    let compressed = rle::contract_raw(plane, escape_len);
    let mut out: Vec<u8> = Vec::with_capacity(compressed.len());
    out.push(escape_len as u8 + 4);
    wire::push_all(&mut out, compressed.as_slice());
    assert(out@ =~= raw_rle_form(plane@, escape_len as nat));
    out
}

/// The shorter of two channels, the first where both are as long.
fn pick_shorter(a: Vec<u8>, b: Vec<u8>) -> (r: Vec<u8>)
    ensures
        r@ == shorter(a@, b@),
{
    if b.len() < a.len() {
        b
    } else {
        a
    }
}

/// Write a plane in the shortest of all forms.
pub fn encode_channel_best(plane: &[u8]) -> (out: Vec<u8>)
    requires
        addressable(plane@.len()),
    ensures
        out@ == best_form(plane@),
{
    if plane.len() == 0 {
        return fill_channel(0);
    }
    if histogram::is_uniform(plane) {
        return fill_channel(plane[0]);
    }
    let mut best = build_header_zero(plane);
    if let Some(candidate) = build_header_arith_rle(plane, 1) {
        best = pick_shorter(best, candidate);
    }
    if let Some(candidate) = build_header_arith_rle(plane, 2) {
        best = pick_shorter(best, candidate);
    }
    if let Some(candidate) = build_header_arith_rle(plane, 3) {
        best = pick_shorter(best, candidate);
    }
    best = pick_shorter(best, build_header_raw(plane));
    best = pick_shorter(best, encode_channel_raw_rle(plane, 1));
    best = pick_shorter(best, encode_channel_raw_rle(plane, 2));
    best = pick_shorter(best, encode_channel_raw_rle(plane, 3));
    best
}

// ---------------------------------------------------------------------
// Laws
// ---------------------------------------------------------------------

/// A frequency table never starts with a zero byte.
proof fn lemma_table_first_byte(f: Seq<u32>)
    requires
        f.len() == 256,
        forall|i: int| 0 <= i < 256 ==> #[trigger] f[i] < u32::MAX,
    ensures
        fibonacci::table_bytes(f).len() > 0,
        fibonacci::table_bytes(f)[0] != 0,
{
    let code = fibonacci::table_code(f, 0);
    let m: nat = if f[0] == 0 {
        0
    } else {
        fibonacci::magnitude(f[0] as nat + 1)
    };
    vstd::arithmetic::power2::lemma2_to64();
    if f[0] != 0 {
        fibonacci::lemma_magnitude_bound(f[0] as nat + 1, 32);
    }
    fibonacci::lemma_fib_values();
    let head = fibonacci::fib_code(m + 1);
    // The first Fibonacci code is at most eight bits long and ends in a one.
    assert(bits::code_at(head, 0, head));
    fibonacci::lemma_read_fib_code(7, head, 0, m + 1);
    let k = head.len() - 1;
    assert(head[k]);
    assert(code.len() >= head.len());
    assert(code[k] == head[k]);
    let byte = fibonacci::table_bytes(f)[0];
    bits::lemma_byte_at_bits(code, 0, k);
    assert(bits::bit_of(byte, k));
    assert(bits::weight(k) >= 1);
    if byte == 0 {
        assert(0int / bits::weight(k) == 0);
    }
}

/// The symbols behind a written frequency table are read back.
proof fn lemma_coded(ch: Seq<u8>, offset: int, syms: Seq<u8>)
    requires
        syms.len() > 0,
        0 <= offset <= ch.len(),
        ch.skip(offset) == coded(syms),
    ensures
        channel::coded_symbols(ch, offset, syms.len()) == Ok::<Seq<u8>, Error>(syms),
{
    let t = table_for(syms);
    let stream = interval::stream_of(t, false, syms);
    let table = fibonacci::table_bytes(t);
    lemma_table_codes(syms);
    fibonacci::law_table_round_trip(t, stream);
    let p = fibonacci::read_table(bits::unpack(ch.skip(offset)), 0, Seq::empty())->Ok_0.1;
    let body = ch.skip(offset + table.len());
    assert(body =~= stream) by {
        assert(ch.skip(offset).skip(table.len() as int) =~= body);
        assert((table + stream).skip(table.len() as int) =~= stream);
    }
    digits::lemma_be_bytes_len(
        (2 * interval::encode_all(t, false, syms).low) as nat,
        interval::encode_all(t, false, syms).shifts + 4,
    );
    assert(stream.is_prefix_of(body));
    range_coder::law_round_trip(t, syms, body);
}

/// A channel of range-coded samples decodes to its plane.
pub proof fn law_bare_form(p: Seq<u8>)
    requires
        p.len() > 0,
    ensures
        channel::plane_of(bare_form(p), p.len()) == Ok::<Seq<u8>, Error>(p),
{
    let ch = bare_form(p);
    let t = table_for(p);
    lemma_table_codes(p);
    lemma_table_first_byte(t);
    assert(ch[1] == coded(p)[0]);
    assert(coded(p)[0] == fibonacci::table_bytes(t)[0]);
    assert(ch.skip(1) =~= coded(p));
    lemma_coded(ch, 1, p);
}

/// A channel that fills a plane with one value decodes to that plane.
pub proof fn law_fill_form(p: Seq<u8>)
    requires
        histogram::uniform(p),
    ensures
        p.len() > 0 ==> channel::plane_of(fill_form(p[0]), p.len()) == Ok::<Seq<u8>, Error>(p),
        p.len() == 0 ==> channel::plane_of(fill_form(0), p.len()) == Ok::<Seq<u8>, Error>(p),
{
    if p.len() > 0 {
        assert(digits::repeat(p[0], p.len()) =~= p);
    } else {
        assert(digits::repeat(0, 0) =~= p);
    }
}

/// A channel of plain samples decodes to its plane.
pub proof fn law_raw_form(p: Seq<u8>)
    ensures
        channel::plane_of(raw_form(p), p.len()) == Ok::<Seq<u8>, Error>(p),
{
    assert(raw_form(p).subrange(1, 1 + p.len() as int) =~= p);
}

/// A channel of plain bytes with zero-run escapes decodes to its plane.
pub proof fn law_raw_rle_form(p: Seq<u8>, e: nat)
    requires
        1 <= e <= 3,
    ensures
        channel::plane_of(raw_rle_form(p, e), p.len()) == Ok::<Seq<u8>, Error>(p),
{
    rle::law_round_trip(p, e, Seq::empty());
    assert(rle::contract(p, e) + Seq::<u8>::empty() =~= rle::contract(p, e));
    assert(raw_rle_form(p, e).skip(1) =~= rle::contract(p, e));
}

/// A channel of range-coded symbols with zero-run escapes decodes to its
/// plane.
pub proof fn law_arith_rle_form(p: Seq<u8>, e: nat)
    requires
        1 <= e <= 3,
        arith_rle_legal(p, e),
    ensures
        channel::plane_of(arith_rle_form(p, e), p.len()) == Ok::<Seq<u8>, Error>(p),
{
    let syms = rle::contract(p, e);
    let ch = arith_rle_form(p, e);
    let head = seq![e as u8];
    assert(ch =~= head + wire::le32_bytes(syms.len()) + coded(syms));
    wire::lemma_le32_round_trip(syms.len(), head, coded(syms));
    assert(ch.skip(5) =~= coded(syms));
    lemma_coded(ch, 5, syms);
    rle::law_round_trip(p, e, Seq::empty());
    assert(syms + Seq::<u8>::empty() =~= syms);
}

/// Whatever form is chosen, a written channel decodes to its plane.
pub proof fn law_channel_round_trip(p: Seq<u8>)
    ensures
        channel::plane_of(best_form(p), p.len()) == Ok::<Seq<u8>, Error>(p),
        channel::plane_of(simple_form(p), p.len()) == Ok::<Seq<u8>, Error>(p),
        forall|e: nat|
            1 <= e <= 3 ==> #[trigger] channel::plane_of(arith_rle_or_simple(p, e), p.len()) == Ok::<
                Seq<u8>,
                Error,
            >(p),
{
    if p.len() == 0 || histogram::uniform(p) {
        law_fill_form(p);
    } else {
        law_bare_form(p);
        law_raw_form(p);
        law_raw_rle_form(p, 1);
        law_raw_rle_form(p, 2);
        law_raw_rle_form(p, 3);
        if arith_rle_legal(p, 1) {
            law_arith_rle_form(p, 1);
        }
        if arith_rle_legal(p, 2) {
            law_arith_rle_form(p, 2);
        }
        if arith_rle_legal(p, 3) {
            law_arith_rle_form(p, 3);
        }
    }
    assert forall|e: nat| 1 <= e <= 3 implies #[trigger] channel::plane_of(
        arith_rle_or_simple(p, e),
        p.len(),
    ) == Ok::<Seq<u8>, Error>(p) by {
        if arith_rle_legal(p, e) {
            law_arith_rle_form(p, e);
        }
    }
}

/// The headers of the forms without escapes: 0xff exactly where all samples
/// are the same, and never more than one byte on top of the samples.
pub proof fn law_simple_form(p: Seq<u8>)
    ensures
        simple_form(p)[0] == 0x00 || simple_form(p)[0] == 0x04 || simple_form(p)[0] == 0xff,
        simple_form(p)[0] == 0xff <==> histogram::uniform(p),
        p.len() > 0 ==> simple_form(p).len() <= 1 + p.len(),
{
    if p.len() == 0 {
        assert(histogram::uniform(p));
    }
}

/// A channel with escapes has their length as its header and the number of
/// its symbols behind that; without, it is a form without escapes.
pub proof fn law_arith_rle_header(p: Seq<u8>, e: nat)
    requires
        1 <= e <= 3,
    ensures
        arith_rle_or_simple(p, e)[0] == e <==> arith_rle_legal(p, e),
        arith_rle_legal(p, e) ==> wire::le32(arith_rle_or_simple(p, e), 1) == rle::contract(
            p,
            e,
        ).len(),
        !arith_rle_legal(p, e) ==> arith_rle_or_simple(p, e) == simple_form(p),
{
    law_simple_form(p);
    if arith_rle_legal(p, e) {
        let syms = rle::contract(p, e);
        let head = seq![e as u8];
        assert(arith_rle_form(p, e) =~= head + wire::le32_bytes(syms.len()) + coded(syms));
        wire::lemma_le32_round_trip(syms.len(), head, coded(syms));
    }
}

/// The shortest form is not longer than any other that can be written.
pub proof fn law_best_is_shortest(p: Seq<u8>)
    ensures
        best_form(p).len() <= simple_form(p).len(),
        forall|e: nat|
            1 <= e <= 3 ==> best_form(p).len() <= #[trigger] arith_rle_or_simple(p, e).len(),
        p.len() > 0 ==> best_form(p).len() <= 1 + p.len(),
        p.len() > 0 ==> forall|e: nat|
            1 <= e <= 3 ==> best_form(p).len() <= #[trigger] raw_rle_form(p, e).len(),
{
    assert forall|e: nat| 1 <= e <= 3 implies best_form(p).len()
        <= #[trigger] arith_rle_or_simple(p, e).len() by {
        assert(e == 1 || e == 2 || e == 3);
    }
    assert forall|e: nat| 1 <= e <= 3 && p.len() > 0 implies best_form(p).len()
        <= #[trigger] raw_rle_form(p, e).len() by {
        assert(e == 1 || e == 2 || e == 3);
        rle::lemma_contract_nonempty(p, e);
    }
}

/// What the forms hold. Without a table: a header byte and a byte for the
/// plane, the samples, or the samples with escapes. With a table: a header
/// byte, the number of symbols where there are escapes, the table in whole
/// bytes, and the stream.
pub proof fn law_written_forms(p: Seq<u8>, e: nat, b: u8)
    requires
        1 <= e <= 3,
    ensures
        fill_form(b) == seq![0xffu8, b],
        raw_form(p) == seq![4u8] + p,
        raw_rle_form(p, e) == seq![(4 + e) as u8] + rle::contract(p, e),
        ({
            let t = table_for(p);
            bare_form(p) == seq![0u8] + bits::pack(fibonacci::table_code(t, 0))
                + interval::stream_of(t, false, p)
        }),
        ({
            let syms = rle::contract(p, e);
            let t = table_for(syms);
            arith_rle_form(p, e) == seq![e as u8] + wire::le32_bytes(syms.len()) + bits::pack(
                fibonacci::table_code(t, 0),
            ) + interval::stream_of(t, false, syms)
        }),
        interval::mass(histogram::histogram(p)) <= 0x0080_0000 ==> table_for(p)
            == histogram::histogram(p),
{
    assert(bare_form(p) =~= seq![0u8] + bits::pack(fibonacci::table_code(table_for(p), 0))
        + interval::stream_of(table_for(p), false, p));
    let syms = rle::contract(p, e);
    let t = table_for(syms);
    assert(arith_rle_form(p, e) =~= seq![e as u8] + wire::le32_bytes(syms.len()) + bits::pack(
        fibonacci::table_code(t, 0),
    ) + interval::stream_of(t, false, syms));
}

/// The shortest form is one of the forms, and the first of the shortest in
/// the order of the headers. One value fills its plane.
pub proof fn law_best_form(p: Seq<u8>)
    requires
        p.len() > 0,
    ensures
        (forall|i: int| 0 <= i < p.len() ==> #[trigger] p[i] == p[0]) ==> best_form(p) == seq![
            0xffu8,
            p[0],
        ],
        !histogram::uniform(p) ==> {
            let f = best_form(p);
            &&& f.len() == bare_form(p).len() ==> f == bare_form(p)
            &&& f.len() < bare_form(p).len() ==> {
                ||| arith_rle_legal(p, 1) && f == arith_rle_form(p, 1)
                ||| arith_rle_legal(p, 2) && f == arith_rle_form(p, 2)
                ||| arith_rle_legal(p, 3) && f == arith_rle_form(p, 3)
                ||| f == raw_form(p)
                ||| f == raw_rle_form(p, 1)
                ||| f == raw_rle_form(p, 2)
                ||| f == raw_rle_form(p, 3)
            }
            &&& f[0] > 3 && arith_rle_legal(p, 1) ==> f.len() < arith_rle_form(p, 1).len()
            &&& f[0] > 3 && arith_rle_legal(p, 2) ==> f.len() < arith_rle_form(p, 2).len()
            &&& f[0] > 3 && arith_rle_legal(p, 3) ==> f.len() < arith_rle_form(p, 3).len()
            &&& f[0] > 4 ==> f.len() < raw_form(p).len()
        },
{
}

/// Escapes are used before the range coder where they make the plane
/// shorter, leave two different symbols, and 32 bits can count these.
pub proof fn law_escapes_pay(p: Seq<u8>, e: nat)
    ensures
        arith_rle_legal(p, e) <==> {
            let syms = rle::contract(p, e);
            &&& syms.len() < p.len()
            &&& syms.len() < 0x1_0000_0000
            &&& exists|i: int, j: int|
                0 <= i < syms.len() && 0 <= j < syms.len() && #[trigger] syms[i]
                    != #[trigger] syms[j]
        },
{
    let syms = rle::contract(p, e);
    if !histogram::uniform(syms) {
        let i = choose|i: int| 0 <= i < syms.len() && #[trigger] syms[i] != syms[0];
        assert(syms[i] != syms[0]);
    }
}

} // verus!
