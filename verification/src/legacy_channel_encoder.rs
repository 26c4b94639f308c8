//! Writing channels of the obsolete RGB frames.

use crate::bits;
use crate::channel;
use crate::channel_encoder;
use crate::digits;
use crate::error::Error;
use crate::fibonacci;
use crate::histogram;
use crate::interval;
use crate::legacy_range_coder;
use crate::legacy_range_coder::LegacyRangeEncoder;
use crate::rle;
use crate::scaling;
use crate::wire;
use vstd::prelude::*;

verus! {

/// Largest number of samples for which every symbol in use keeps a share of
/// every reachable range.
pub const MAX_LEGACY_SAMPLES: usize = 0x0080_0000;

/// The frequency table that a plane is coded with.
pub open spec fn table_for(p: Seq<u8>) -> Seq<u32> {
    legacy_range_coder::rescaled(histogram::histogram(p))
}

/// What stands between the frequency table and the symbols: a zero byte
/// behind a table that fills its last byte.
pub open spec fn reservation(t: Seq<u32>) -> Seq<u8> {
    if legacy_range_coder::table_aligned(t) {
        seq![0u8]
    } else {
        Seq::empty()
    }
}

/// What follows the frequency table of a plane.
pub open spec fn after_table(p: Seq<u8>) -> Seq<u8> {
    reservation(table_for(p)) + interval::stream_of(table_for(p), true, p)
}

/// The channel with a plain frequency table.
pub open spec fn bare_form(p: Seq<u8>) -> Seq<u8> {
    seq![0u8, 0u8] + legacy_range_coder::table_bytes(table_for(p)) + after_table(p)
}

/// The channel whose frequency table has zero-run escapes.
pub open spec fn rle_form(p: Seq<u8>, e: nat) -> Seq<u8> {
    let table = legacy_range_coder::table_bytes(table_for(p));
    seq![e as u8] + wire::le32_bytes(table.len()) + rle::contract(table, e) + after_table(p)
}

/// The frequency table fits the buffer that it is expanded into.
pub open spec fn rle_fits(p: Seq<u8>) -> bool {
    legacy_range_coder::table_bytes(table_for(p)).len() <= 256
}

/// The escaped frequency table ends where a reader can tell: no loose zero
/// runs into a zero that follows.
pub open spec fn rle_delimited(p: Seq<u8>, e: nat) -> bool {
    let table = legacy_range_coder::table_bytes(table_for(p));
    rle::loose_end(table, e, 0) == 0 || after_table(p)[0] != 0
}

/// The channel with escapes can be read back.
pub open spec fn rle_valid(p: Seq<u8>, e: nat) -> bool {
    rle_fits(p) && rle_delimited(p, e)
}

/// The shorter of a channel and the one with escapes of length `e`, where
/// that can be read back.
pub open spec fn try_rle(best: Seq<u8>, p: Seq<u8>, e: nat) -> Seq<u8> {
    if rle_valid(p, e) {
        channel_encoder::shorter(best, rle_form(p, e))
    } else {
        best
    }
}

/// What [`encode_legacy_channel_best`] writes.
pub open spec fn best_form(p: Seq<u8>) -> Seq<u8> {
    try_rle(try_rle(try_rle(bare_form(p), p, 1), p, 2), p, 3)
}

/// A plane that can be coded.
pub open spec fn encodable(p: Seq<u8>) -> bool {
    0 < p.len() <= MAX_LEGACY_SAMPLES
}

/// The table of a plane codes the plane.
pub proof fn lemma_table_codes(p: Seq<u8>)
    requires
        encodable(p),
    ensures
        interval::codable(table_for(p), p),
        scaling::is_power_of_two(interval::mass(table_for(p)) as nat),
        legacy_range_coder::rescalable(histogram::histogram(p)),
        legacy_range_coder::rescaled_total(histogram::histogram(p)) == interval::mass(
            table_for(p),
        ),
        forall|i: int| 0 <= i < 256 ==> #[trigger] table_for(p)[i] < u32::MAX,
{
    let h = histogram::histogram(p);
    let t = table_for(p);
    histogram::lemma_histogram_mass(p);
    histogram::lemma_histogram_positive(p);
    legacy_range_coder::law_rescaled(h);
    reveal_with_fuel(scaling::is_power_of_two, 25);
    assert(scaling::is_power_of_two(MAX_LEGACY_SAMPLES as nat));
    scaling::lemma_ceil_below(p.len(), MAX_LEGACY_SAMPLES as nat);
    assert forall|i: int| 0 <= i < p.len() implies t[#[trigger] p[i] as int] > 0 by {
        assert(h[p[i] as int] > 0);
        assert(h[p[i] as int] <= t[p[i] as int]);
    }
    scaling::lemma_entries_below_mass(t);
}

/// The frequency table of a plane and its range-coded samples.
fn encode_plane(plane: &[u8]) -> (r: ([u32; 256], Vec<u8>))
    requires
        encodable(plane@),
    ensures
        r.0@ == table_for(plane@),
        r.1@ == interval::stream_of(table_for(plane@), true, plane@),
{
    let freq: [u32; 256] = histogram::histogram_from_plane(plane);
    proof {
        lemma_table_codes(plane@);
    }
    let (table, total) = match legacy_range_coder::rescale_freq(&freq) {
        Ok(x) => x,
        Err(_) => {
            assert(false);
            (freq, 1)
        },
    };
    let ghost t = table@;
    let cdf = legacy_range_coder::prefix_sums(&table);
    proof {
        legacy_range_coder::lemma_table_of_flat(t);
    }
    let mut enc = LegacyRangeEncoder::new(cdf, total);
    let mut i: usize = 0;
    assert(plane@.take(0) =~= Seq::<u8>::empty());
    while i < plane.len()
        invariant
            i <= plane@.len(),
            plane@.len() <= MAX_LEGACY_SAMPLES,
            interval::codable(t, plane@),
            enc.wf(),
            enc.table() == t,
            enc.total == interval::mass(t),
            enc@ == interval::encode_all(t, true, plane@.take(i as int)),
        decreases plane@.len() - i,
    {
        proof {
            let head = plane@.take(i as int);
            assert(forall|k: int| 0 <= k < head.len() ==> head[k] == plane@[k]);
            interval::lemma_encode_all_range(t, true, head);
            assert(plane@.take(i + 1).drop_last() =~= head);
            assert(t[plane@[i as int] as int] > 0);
        }
        enc.encode_byte(plane[i]);
        i = i + 1;
    }
    proof {
        assert(plane@.take(plane@.len() as int) =~= plane@);
        interval::lemma_encode_all_range(t, true, plane@);
    }
    (table, enc.finish())
}

/// Write a plane with a plain frequency table.
pub fn encode_legacy_channel(plane: &[u8]) -> (out: Vec<u8>)
    requires
        encodable(plane@),
    ensures
        out@ == bare_form(plane@),
{
    let (table, body) = encode_plane(plane);
    let (fib_bytes, aligned) = legacy_range_coder::encode_legacy_freq_table(&table);
    let mut out: Vec<u8> = Vec::with_capacity(body.len());
    out.push(0x00);
    out.push(0x00);
    wire::push_all(&mut out, fib_bytes.as_slice());
    if aligned {
        out.push(0x00);
    }
    wire::push_all(&mut out, body.as_slice());
    assert(out@ =~= bare_form(plane@));
    out
}

/// Write a plane with zero-run escapes in its frequency table.
pub fn encode_legacy_channel_rle(plane: &[u8], escape_len: usize) -> (out: Vec<u8>)
    requires
        1 <= escape_len <= 3,
        encodable(plane@),
        rle_fits(plane@),
    ensures
        out@ == rle_form(plane@, escape_len as nat),
{
    let (table, body) = encode_plane(plane);
    let (fib_bytes, aligned) = legacy_range_coder::encode_legacy_freq_table(&table);
    let compressed = rle::contract_raw(fib_bytes.as_slice(), escape_len);
    let mut out: Vec<u8> = Vec::with_capacity(body.len());
    out.push(escape_len as u8);
    wire::push_le32(&mut out, fib_bytes.len());
    wire::push_all(&mut out, compressed.as_slice());
    if aligned {
        out.push(0x00);
    }
    wire::push_all(&mut out, body.as_slice());
    assert(out@ =~= rle_form(plane@, escape_len as nat));
    out
}

/// The number of zeros at the end of `bytes` that stand outside escapes.
fn count_loose_end(bytes: &[u8], escape_len: usize) -> (r: usize)
    requires
        1 <= escape_len <= 3,
    ensures
        r == rle::loose_end(bytes@, escape_len as nat, 0),
{
    let ghost e = escape_len as nat;
    let mut j: usize = 0;
    let mut run: usize = 0;
    let mut k: usize = 0;
    while k < bytes.len()
        invariant
            k <= bytes@.len(),
            j + run == k,
            rle::loose_end(bytes@, e, 0) == rle::loose_end(bytes@, e, j as int),
            rle::zero_run(bytes@, j as int) == run + rle::zero_run(bytes@, k as int),
        decreases bytes@.len() - k,
    {
        if bytes[k] == 0 {
            run = run + 1;
        } else {
            j = k + 1;
            run = 0;
        }
        k = k + 1;
    }
    let ghost total = run as nat;
    let mut rest: usize = run;
    while rest >= escape_len
        invariant
            1 <= escape_len <= 3,
            e == escape_len,
            rle::run_rest(e, rest as nat) == rle::run_rest(e, total),
        decreases rest,
    {
        if rest <= escape_len + 255 {
            rest = 0;
        } else {
            rest = rest - (escape_len + 255);
        }
    }
    rest
}

/// The channel with escapes of one length, where it can be read back.
pub(crate) fn try_encode_rle(plane: &[u8], escape_len: usize) -> (r: Option<Vec<u8>>)
    requires
        1 <= escape_len <= 3,
        encodable(plane@),
    ensures
        match r {
            Some(out) => rle_valid(plane@, escape_len as nat) && out@ == rle_form(
                plane@,
                escape_len as nat,
            ),
            None => !rle_valid(plane@, escape_len as nat),
        },
{
    let (table, body) = encode_plane(plane);
    let (fib_bytes, aligned) = legacy_range_coder::encode_legacy_freq_table(&table);
    if fib_bytes.len() > 256 {
        return None;
    }
    proof {
        let t = table_for(plane@);
        digits::lemma_be_bytes_len(
            (2 * interval::encode_all(t, true, plane@).low) as nat,
            interval::encode_all(t, true, plane@).shifts + 4,
        );
    }
    let next: u8 = if aligned {
        0
    } else {
        body[0]
    };
    assert(next == after_table(plane@)[0]);
    if next == 0 && count_loose_end(fib_bytes.as_slice(), escape_len) != 0 {
        return None;
    }
    Some(encode_legacy_channel_rle(plane, escape_len))
}

/// Write a plane in the shortest form that can be read back.
pub fn encode_legacy_channel_best(plane: &[u8]) -> (out: Vec<u8>)
    requires
        encodable(plane@),
    ensures
        out@ == best_form(plane@),
{
    let mut best = encode_legacy_channel(plane);
    if let Some(candidate) = try_encode_rle(plane, 1) {
        if candidate.len() < best.len() {
            best = candidate;
        }
    }
    if let Some(candidate) = try_encode_rle(plane, 2) {
        if candidate.len() < best.len() {
            best = candidate;
        }
    }
    if let Some(candidate) = try_encode_rle(plane, 3) {
        if candidate.len() < best.len() {
            best = candidate;
        }
    }
    best
}

// ---------------------------------------------------------------------
// Laws
// ---------------------------------------------------------------------

/// The table of a plane is used as it is when it is read back.
proof fn lemma_body(p: Seq<u8>, ch: Seq<u8>, offset: int)
    requires
        encodable(p),
        !legacy_range_coder::rare_cluster(table_for(p)),
        0 <= offset <= ch.len(),
        ch.skip(offset) == interval::stream_of(table_for(p), true, p),
    ensures
        channel::legacy_symbols(ch, offset, table_for(p), p.len()) == Ok::<Seq<u8>, Error>(p),
{
    let t = table_for(p);
    let stream = interval::stream_of(t, true, p);
    lemma_table_codes(p);
    legacy_range_coder::law_rescaled_fixed(t);
    digits::lemma_be_bytes_len(
        (2 * interval::encode_all(t, true, p).low) as nat,
        interval::encode_all(t, true, p).shifts + 4,
    );
    assert(stream.is_prefix_of(stream));
    legacy_range_coder::law_round_trip(t, p, stream);
}

/// A channel with a plain frequency table decodes to its plane, unless its
/// table has the rare-symbol-cluster shape, which selects another layout.
pub proof fn law_bare_form(p: Seq<u8>)
    requires
        encodable(p),
        !legacy_range_coder::rare_cluster(table_for(p)),
    ensures
        channel::legacy_plane_of(bare_form(p), p.len()) == Ok::<Seq<u8>, Error>(p),
{
    reveal(channel::legacy_plane_of);
    let t = table_for(p);
    let table = legacy_range_coder::table_bytes(t);
    let stream = interval::stream_of(t, true, p);
    let ch = bare_form(p);
    lemma_table_codes(p);
    assert(ch.skip(2) =~= table + after_table(p));
    legacy_range_coder::law_table_round_trip(t, after_table(p));
    let offset = 2 + table.len() + reservation(t).len();
    assert(ch.skip(offset as int) =~= stream);
    lemma_body(p, ch, offset as int);
}

/// A channel with zero-run escapes in its frequency table decodes to its
/// plane, where the escaped table fits and can be told from what follows,
/// unless the table has the rare-symbol-cluster shape.
pub proof fn law_rle_form(p: Seq<u8>, e: nat)
    requires
        1 <= e <= 3,
        encodable(p),
        rle_valid(p, e),
        !legacy_range_coder::rare_cluster(table_for(p)),
    ensures
        channel::legacy_plane_of(rle_form(p, e), p.len()) == Ok::<Seq<u8>, Error>(p),
{
    reveal(channel::legacy_plane_of);
    let t = table_for(p);
    let table = legacy_range_coder::table_bytes(t);
    let stream = interval::stream_of(t, true, p);
    let ch = rle_form(p, e);
    let head = seq![e as u8];
    let packed = rle::contract(table, e);
    let rest = after_table(p);
    lemma_table_codes(p);
    assert(ch =~= head + wire::le32_bytes(table.len()) + (packed + rest));
    wire::lemma_le32_round_trip(table.len(), head, packed + rest);
    assert(ch.skip(5) =~= packed + rest);
    rle::law_round_trip(table, e, rest);
    legacy_range_coder::law_table_round_trip(t, Seq::empty());
    assert(table + Seq::<u8>::empty() =~= table);
    lemma_table_nonempty(t);
    let offset = 5 + packed.len() + reservation(t).len();
    assert(ch.skip(offset as int) =~= stream);
    lemma_body(p, ch, offset as int);
}

proof fn lemma_table_nonempty(t: Seq<u32>)
    requires
        t.len() == 256,
    ensures
        legacy_range_coder::table_bytes(t).len() > 0,
{
    let code = legacy_range_coder::table_code(t, 0);
    assert(code.len() > 0);
}

/// Whatever form is chosen, a written channel decodes to its plane, unless
/// its table has the rare-symbol-cluster shape.
pub proof fn law_channel_round_trip(p: Seq<u8>)
    requires
        encodable(p),
        !legacy_range_coder::rare_cluster(table_for(p)),
    ensures
        channel::legacy_plane_of(best_form(p), p.len()) == Ok::<Seq<u8>, Error>(p),
{
    law_bare_form(p);
    if rle_valid(p, 1) {
        law_rle_form(p, 1);
    }
    if rle_valid(p, 2) {
        law_rle_form(p, 2);
    }
    if rle_valid(p, 3) {
        law_rle_form(p, 3);
    }
}

/// A number code of at most 24 bits of value has its last marker in the
/// first eight bits.
proof fn lemma_number_code_shape(v: nat) -> (q: int)
    requires
        1 <= v < 0x100_0000,
    ensures
        0 <= q < 8,
        q < fibonacci::number_code(v).len() <= q + 24,
        fibonacci::number_code(v)[q],
{
    vstd::arithmetic::power2::lemma2_to64();
    fibonacci::lemma_magnitude_bound(v, 24);
    let m = fibonacci::magnitude(v);
    fibonacci::lemma_fib_values();
    let head = fibonacci::fib_code(m + 1);
    assert(bits::code_at(head, 0, head));
    fibonacci::lemma_read_fib_code(7, head, 0, m + 1);
    fibonacci::lemma_low_bits(v, m);
    let q = head.len() - 1;
    assert(head[q]);
    q
}

/// Among any 32 bits of a table, of which at most seven lie behind its end,
/// one is set.
proof fn lemma_one_within(t: Seq<u32>, j: int, s: int) -> (k: int)
    requires
        t.len() == 256,
        forall|i: int| 0 <= i < 256 ==> #[trigger] t[i] <= 0x0080_0000,
        0 <= j <= 256,
        0 <= s,
        s + 25 <= legacy_range_coder::table_code(t, j).len(),
    ensures
        s <= k < s + 32,
        k < legacy_range_coder::table_code(t, j).len(),
        legacy_range_coder::table_code(t, j)[k],
    decreases 256 - j,
{
    let v = legacy_range_coder::coded_frequency(t[j]);
    let code = fibonacci::number_code(v);
    let q = lemma_number_code_shape(v);
    let all = legacy_range_coder::table_code(t, j);
    let rest = legacy_range_coder::table_code(t, j + 1);
    assert(all =~= code + rest);
    if s <= q {
        assert(all[q] == code[q]);
        q
    } else if s >= code.len() {
        let k = lemma_one_within(t, j + 1, s - code.len());
        assert(all[code.len() + k] == rest[k]);
        code.len() + k
    } else {
        assert(j + 1 < 256);
        let v1 = legacy_range_coder::coded_frequency(t[j + 1]);
        let code1 = fibonacci::number_code(v1);
        let q1 = lemma_number_code_shape(v1);
        assert(rest =~= code1 + legacy_range_coder::table_code(t, j + 2));
        assert(rest[q1] == code1[q1]);
        assert(all[code.len() + q1] == rest[q1]);
        code.len() + q1
    }
}

/// The bytes of a table never have four zeros in a row.
proof fn lemma_no_four_zeros(t: Seq<u32>, i: int)
    requires
        t.len() == 256,
        forall|i: int| 0 <= i < 256 ==> #[trigger] t[i] <= 0x0080_0000,
        0 <= i,
        i + 4 <= legacy_range_coder::table_bytes(t).len(),
    ensures
        !rle::four_zeros(legacy_range_coder::table_bytes(t), i),
{
    let code = legacy_range_coder::table_code(t, 0);
    let k = lemma_one_within(t, 0, 8 * i);
    let byte = legacy_range_coder::table_bytes(t)[k / 8];
    bits::lemma_byte_at_bits(code, k / 8, k % 8);
    assert(8 * (k / 8) + k % 8 == k);
    assert(bits::bit_of(byte, k % 8));
    assert(bits::weight(k % 8) >= 1);
    if byte == 0 {
        assert(0int / bits::weight(k % 8) == 0);
    }
    assert(k / 8 == i || k / 8 == i + 1 || k / 8 == i + 2 || k / 8 == i + 3);
}

/// Escapes of two or three zeros make no table shorter, and one of one zero
/// leaves none loose.
proof fn lemma_escapes(p: Seq<u8>, e: nat)
    requires
        encodable(p),
        1 <= e <= 3,
    ensures
        e == 1 ==> rle_delimited(p, e),
        e > 1 ==> rle_form(p, e).len() >= bare_form(p).len(),
{
    let t = table_for(p);
    let table = legacy_range_coder::table_bytes(t);
    lemma_table_codes(p);
    scaling::lemma_entries_below_mass(t);
    if e == 1 {
        rle::lemma_nothing_loose(table, 0);
    } else {
        assert forall|i: int| 0 <= i && i + 4 <= table.len() implies !#[trigger] rle::four_zeros(
            table,
            i,
        ) by {
            lemma_no_four_zeros(t, i);
        }
        rle::lemma_short_runs(table, e);
    }
}

/// The shortest form is not longer than the plain one, nor than any escaped
/// one whose table fits its buffer, and its header is legal. Where the plain
/// one is as short, it is the one chosen.
pub proof fn law_best_is_shortest(p: Seq<u8>)
    ensures
        best_form(p).len() <= bare_form(p).len(),
        encodable(p) && rle_fits(p) ==> forall|e: nat|
            1 <= e <= 3 ==> best_form(p).len() <= #[trigger] rle_form(p, e).len(),
        best_form(p)[0] <= 3,
        best_form(p).len() == bare_form(p).len() ==> best_form(p) == bare_form(p),
{
    if encodable(p) && rle_fits(p) {
        assert forall|e: nat| 1 <= e <= 3 implies best_form(p).len() <= #[trigger] rle_form(
            p,
            e,
        ).len() by {
            lemma_escapes(p, e);
        }
    }
}

/// The code of one frequency of at most 32 bits.
proof fn lemma_number_code_len(v: nat)
    requires
        1 <= v <= u32::MAX,
    ensures
        fibonacci::number_code(v).len() <= 42,
{
    vstd::arithmetic::power2::lemma2_to64();
    fibonacci::lemma_magnitude_bound(v, 32);
    let m = fibonacci::magnitude(v);
    fibonacci::lemma_fib_values();
    fibonacci::lemma_fib_width(9, m + 1);
    fibonacci::lemma_zeckendorf_len(fibonacci::fib_width(9, m + 1), m + 1);
    fibonacci::lemma_low_bits(v, m);
}

proof fn lemma_table_code_len(t: Seq<u32>, j: int)
    requires
        t.len() == 256,
        0 <= j <= 256,
    ensures
        legacy_range_coder::table_code(t, j).len() <= 42 * (256 - j),
    decreases 256 - j,
{
    if j < 256 {
        lemma_number_code_len(legacy_range_coder::coded_frequency(t[j]));
        lemma_table_code_len(t, j + 1);
    }
}

/// No form of a channel is longer than three bytes per sample and some
/// bytes for the frequency table.
pub proof fn law_form_lengths(p: Seq<u8>)
    requires
        encodable(p),
    ensures
        bare_form(p).len() <= 3 * p.len() + 4096,
        best_form(p).len() <= 3 * p.len() + 4096,
        forall|e: nat| 1 <= e <= 3 ==> #[trigger] rle_form(p, e).len() <= 3 * p.len() + 4096,
{
    let t = table_for(p);
    lemma_table_codes(p);
    lemma_table_code_len(t, 0);
    interval::lemma_encode_all_range(t, true, p);
    digits::lemma_be_bytes_len(
        (2 * interval::encode_all(t, true, p).low) as nat,
        interval::encode_all(t, true, p).shifts + 4,
    );
    law_best_is_shortest(p);
    let table = legacy_range_coder::table_bytes(t);
    assert(table.len() <= 1344);
    assert forall|e: nat| 1 <= e <= 3 implies #[trigger] rle_form(p, e).len() <= 3 * p.len()
        + 4096 by {
        rle::law_contract_bounded(table, e);
    }
}

} // verus!
