//! The wire format, bit by bit and byte by byte.
//!
//! The laws say where every bit of a stream stands and what it is worth,
//! with the numbers of the format written out.

use crate::bits;
use crate::error::{Error, Result};
use crate::fibonacci;
use crate::legacy_range_coder;
use crate::legacy_range_coder::CdfLayout;
use crate::interval;
use crate::interval::{Interval, Window};
use crate::range_coder;
use crate::digits;
use crate::wire;
use crate::channel;
use crate::rle;
use crate::legacy_channel_encoder;
use crate::frame;
use crate::decoder;
use crate::decoder::PixelKind;
use crate::predict;
use crate::predict::{FirstColRule, Predictor};
use vstd::arithmetic::power2::pow2;
use vstd::prelude::*;

verus! {

// ---------------------------------------------------------------------
// Bits and numbers
// ---------------------------------------------------------------------

/// Bits are taken from a byte from the most significant one on: bit `k` of
/// byte `i` is worth `2^(7 - k)`.
pub proof fn law_bits_of_bytes(s: Seq<u8>, i: int, k: int)
    requires
        0 <= i < s.len(),
        0 <= k < 8,
    ensures
        bits::unpack(s).len() == 8 * s.len(),
        bits::unpack(s)[8 * i + k] == ((s[i] as nat / pow2((7 - k) as nat)) % 2 == 1),
{
    assert((8 * i + k) / 8 == i && (8 * i + k) % 8 == k);
    lemma_weight(k);
}

/// The weights of the bits of a byte are powers of two.
proof fn lemma_weight(k: int)
    requires
        0 <= k < 8,
    ensures
        bits::weight(k) == pow2((7 - k) as nat),
{
    vstd::arithmetic::power2::lemma2_to64();
}

/// Bits are put into bytes from the most significant one on, and zeros fill
/// up the last byte.
pub proof fn law_bytes_of_bits(b: Seq<bool>, i: int, k: int)
    requires
        0 <= i < bits::pack(b).len(),
        0 <= k < 8,
    ensures
        8 * bits::pack(b).len() - 8 < b.len() <= 8 * bits::pack(b).len(),
        (bits::pack(b)[i] as nat / pow2((7 - k) as nat)) % 2 == 1 <==> (8 * i + k < b.len()
            && b[8 * i + k]),
{
    bits::lemma_byte_at_bits(b, i, k);
    lemma_weight(k);
}

/// The low bits of a number come most significant first: bit `i` of `m` is
/// worth `2^(m - 1 - i)`.
pub proof fn law_low_bits(v: nat, m: nat, i: int)
    requires
        0 <= i < m,
    ensures
        fibonacci::low_bits(v, m).len() == m,
        fibonacci::low_bits(v, m)[i] == ((v / pow2((m - 1 - i) as nat)) % 2 == 1),
    decreases m,
{
    fibonacci::lemma_low_bits(v, m);
    fibonacci::lemma_low_bits(v / 2, (m - 1) as nat);
    if i == m - 1 {
        vstd::arithmetic::power2::lemma2_to64();
        assert(v / 1 == v);
    } else {
        law_low_bits(v / 2, (m - 1) as nat, i);
        let d = pow2((m - 2 - i) as nat);
        vstd::arithmetic::power2::lemma_pow2_unfold((m - 1 - i) as nat);
        vstd::arithmetic::power2::lemma_pow2_pos((m - 2 - i) as nat);
        vstd::arithmetic::div_mod::lemma_div_denominator(v as int, 2, d as int);
    }
}

/// A one and `m` bits spell a number of `m + 1` bits: bit `i` of the `m` is
/// worth `2^(m - 1 - i)`, and the leading one `2^m`.
pub proof fn law_spelled(s: Seq<bool>)
    ensures
        pow2(s.len()) <= fibonacci::spelled(s) < 2 * pow2(s.len()),
        forall|i: int|
            0 <= i < s.len() ==> #[trigger] s[i] == ((fibonacci::spelled(s) / pow2(
                (s.len() - 1 - i) as nat,
            )) % 2 == 1),
    decreases s.len(),
{
    fibonacci::lemma_spelled_bound(s);
    vstd::arithmetic::power2::lemma_pow2_unfold(s.len() + 1);
    let v = fibonacci::spelled(s);
    if s.len() > 0 {
        let head = s.drop_last();
        law_spelled(head);
        assert(v / 2 == fibonacci::spelled(head));
        assert forall|i: int| 0 <= i < s.len() implies #[trigger] s[i] == ((v / pow2(
            (s.len() - 1 - i) as nat,
        )) % 2 == 1) by {
            if i == s.len() - 1 {
                vstd::arithmetic::power2::lemma2_to64();
                assert(v / 1 == v);
            } else {
                let d = pow2((s.len() - 2 - i) as nat);
                assert(head[i] == s[i]);
                vstd::arithmetic::power2::lemma_pow2_unfold((s.len() - 1 - i) as nat);
                vstd::arithmetic::power2::lemma_pow2_pos((s.len() - 2 - i) as nat);
                vstd::arithmetic::div_mod::lemma_div_denominator(v as int, 2, d as int);
            }
        }
    }
}

/// The bit of `x` that is worth `2^k` is set.
pub open spec fn has_bit(x: nat, k: int) -> bool {
    (x / pow2(k as nat)) % 2 == 1
}

/// The bits of `src` from `p` on, behind a leading one, spell `x` in
/// `m + 1` bits, most significant first.
pub open spec fn spells(src: Seq<bool>, p: int, m: nat, x: nat) -> bool {
    &&& 0 <= p && p + m <= src.len()
    &&& pow2(m) <= x < 2 * pow2(m)
    &&& forall|i: int| p <= i < p + m ==> #[trigger] src[i] == has_bit(x, p + m - 1 - i)
}

/// Two numbers of `m + 1` bits that agree in every bit are the same.
proof fn lemma_bits_decide(m: nat, x: nat, y: nat)
    requires
        pow2(m) <= x < 2 * pow2(m),
        pow2(m) <= y < 2 * pow2(m),
        forall|k: int| 0 <= k < m ==> #[trigger] has_bit(x, k) == has_bit(y, k),
    ensures
        x == y,
    decreases m,
{
    vstd::arithmetic::power2::lemma2_to64();
    if m > 0 {
        vstd::arithmetic::power2::lemma_pow2_unfold(m);
        assert forall|k: int| 0 <= k < m - 1 implies #[trigger] has_bit(x / 2, k) == has_bit(
            y / 2,
            k,
        ) by {
            let d = pow2(k as nat);
            vstd::arithmetic::power2::lemma_pow2_pos(k as nat);
            vstd::arithmetic::power2::lemma_pow2_unfold((k + 1) as nat);
            vstd::arithmetic::div_mod::lemma_div_denominator(x as int, 2, d as int);
            vstd::arithmetic::div_mod::lemma_div_denominator(y as int, 2, d as int);
            assert(has_bit(x, k + 1) == has_bit(y, k + 1));
        }
        lemma_bits_decide((m - 1) as nat, x / 2, y / 2);
        assert(has_bit(x, 0) == has_bit(y, 0));
        assert(x / 1 == x && y / 1 == y);
    }
}

/// Behind a class, a suffix of `m` bits reads as the number that it spells,
/// and is refused where the stream ends before.
pub proof fn law_suffix(src: Seq<bool>, p: int, m: nat, x: nat)
    requires
        0 <= p,
    ensures
        fibonacci::read_suffix(src, p, m) is None <==> p + m > src.len(),
        spells(src, p, m, x) <==> fibonacci::read_suffix(src, p, m) == Some(x),
{
    if p + m <= src.len() {
        let s = src.subrange(p, p + m);
        let y = fibonacci::spelled(s);
        law_spelled(s);
        assert forall|i: int| p <= i < p + m implies #[trigger] src[i] == has_bit(
            y,
            p + m - 1 - i,
        ) by {
            assert(s[i - p] == src[i]);
        }
        if spells(src, p, m, x) {
            assert forall|k: int| 0 <= k < m implies #[trigger] has_bit(x, k) == has_bit(y, k) by {
                assert(src[p + m - 1 - k] == has_bit(x, k));
            }
            lemma_bits_decide(m, x, y);
        }
    }
}

// ---------------------------------------------------------------------
// Classes
// ---------------------------------------------------------------------

/// What bit `k` of the code at `p` adds to its value, as far as the code
/// has `n` such bits.
pub open spec fn part(src: Seq<bool>, p: int, n: int, k: int, worth: nat) -> nat {
    if k < n && src[p + k] {
        worth
    } else {
        0
    }
}

/// The value of the `n` bits at `p`: 1, 2, 3, 5, 8, 13, 21, 34 and 55 for
/// the bits that are set.
pub open spec fn class_value(src: Seq<bool>, p: int, n: int) -> nat {
    part(src, p, n, 0, 1) + part(src, p, n, 1, 2) + part(src, p, n, 2, 3) + part(src, p, n, 3, 5)
        + part(src, p, n, 4, 8) + part(src, p, n, 5, 13) + part(src, p, n, 6, 21) + part(
        src,
        p,
        n,
        7,
        34,
    ) + part(src, p, n, 8, 55)
}

/// Bit `i` and the one behind it are set.
pub open spec fn pair_at(src: Seq<bool>, i: int) -> bool {
    src[i] && src[i + 1]
}

/// The bits from `p` to `q` are the class `c`: the first two set bits in a
/// row end it, the second of them adds nothing, and at most `limit` bits
/// add to it.
pub open spec fn is_class(src: Seq<bool>, p: int, q: int, limit: int, c: nat) -> bool {
    &&& 0 <= p
    &&& p + 2 <= q <= src.len()
    &&& q <= p + limit + 1
    &&& pair_at(src, q - 2)
    &&& forall|i: int| p <= i < q - 2 ==> !#[trigger] pair_at(src, i)
    &&& c == class_value(src, p, q - 1 - p)
}

/// One more bit adds its Fibonacci number.
proof fn lemma_class_value(src: Seq<bool>, p: int, n: int)
    requires
        0 <= n <= 8,
    ensures
        class_value(src, p, 0) == 0,
        class_value(src, p, n + 1) == class_value(src, p, n) + if src[p + n] {
            fibonacci::fib(n as nat)
        } else {
            0
        },
{
    fibonacci::lemma_fib_values();
}

/// What is read from bit `n` of the code at `p` on.
proof fn lemma_read_class(limit: nat, src: Seq<bool>, p: int, n: nat)
    requires
        7 <= limit <= 8,
        0 <= p,
        p + n <= src.len(),
        n <= limit + 1,
        n == limit + 1 ==> !src[p + limit],
        forall|i: int| p <= i < p + n - 1 ==> !#[trigger] pair_at(src, i),
    ensures
        ({
            let prev = n > 0 && src[p + n - 1];
            let value = class_value(src, p, n as int);
            match fibonacci::read_code(limit, src, p + n, n, value, prev) {
                Ok((v, q)) => is_class(src, p, q, limit as int, v),
                Err(e) => {
                    &&& forall|q: int, c: nat| !#[trigger] is_class(src, p, q, limit as int, c)
                    &&& e == if p + limit < src.len() && (src[p + limit] || p + limit + 1
                        < src.len()) {
                        Error::FibonacciOverflow
                    } else {
                        Error::Truncated { context: "Fibonacci prefix bit stream" }
                    }
                },
            }
        }),
    decreases limit + 2 - n,
{
    let prev = n > 0 && src[p + n - 1];
    let value = class_value(src, p, n as int);
    let r = fibonacci::read_code(limit, src, p + n, n, value, prev);
    if p + n >= src.len() {
        assert forall|q: int, c: nat| !#[trigger] is_class(src, p, q, limit as int, c) by {
            if is_class(src, p, q, limit as int, c) {
                assert(q - 2 < p + n - 1);
                assert(pair_at(src, q - 2));
            }
        }
    } else if prev && src[p + n] {
        let q = p + n + 1;
        assert(pair_at(src, q - 2));
        assert(class_value(src, p, q - 1 - p) == value);
    } else if (src[p + n] && n >= limit) || n > limit {
        assert forall|q: int, c: nat| !#[trigger] is_class(src, p, q, limit as int, c) by {
            if is_class(src, p, q, limit as int, c) {
                assert(pair_at(src, q - 2));
                if q - 2 >= p + n - 1 {
                    assert(q - 2 == p + n - 1);
                    assert(src[p + n - 1]);
                }
            }
        }
    } else {
        lemma_class_value(src, p, n as int);
        assert forall|i: int| p <= i < p + (n + 1) - 1 implies !#[trigger] pair_at(src, i) by {
            if i == p + n - 1 {
                assert(!(src[p + n - 1] && src[p + n]));
            }
        }
        lemma_read_class(limit, src, p, n + 1);
    }
}

/// A class is read from the bits alone. Where there is none, the reader
/// says whether the code is too long or the stream too short.
pub proof fn law_class(limit: nat, src: Seq<bool>, p: int)
    requires
        7 <= limit <= 8,
        0 <= p <= src.len(),
    ensures
        forall|q: int, c: nat|
            is_class(src, p, q, limit as int, c) <==> fibonacci::read_fib_code(limit, src, p) == Ok::<
                (nat, int),
                Error,
            >((c, q)),
        fibonacci::read_fib_code(limit, src, p) matches Err(e) ==> e == if p + limit < src.len()
            && (src[p + limit] || p + limit + 1 < src.len()) {
            Error::FibonacciOverflow
        } else {
            Error::Truncated { context: "Fibonacci prefix bit stream" }
        },
{
    lemma_class_value(src, p, 0);
    lemma_read_class(limit, src, p, 0);
    assert forall|q: int, c: nat| is_class(src, p, q, limit as int, c) implies
        fibonacci::read_fib_code(limit, src, p) == Ok::<(nat, int), Error>((c, q)) by {
        let r = fibonacci::read_fib_code(limit, src, p);
        assert(r is Ok);
        let q2 = r->Ok_0.1;
        assert(is_class(src, p, q2, limit as int, r->Ok_0.0));
        if q < q2 {
            assert(pair_at(src, q - 2));
        }
        if q2 < q {
            assert(pair_at(src, q2 - 2));
        }
    }
}

// ---------------------------------------------------------------------
// Frequency tables
// ---------------------------------------------------------------------

/// Bits fill whole bytes, the last one at least in part.
pub proof fn law_bytes_for(n: nat)
    ensures
        8 * bits::bytes_for(n) - 8 < n <= 8 * bits::bytes_for(n),
{
}

/// A class from 2 to 32 and the suffix behind it are one frequency, one
/// less than the number that the suffix spells.
pub proof fn law_read_frequency(
    src: Seq<bool>,
    p: int,
    q: int,
    c: nat,
    x: nat,
    acc: Seq<u32>,
)
    requires
        acc.len() < 256,
        is_class(src, p, q, 7, c),
        2 <= c <= 32,
        spells(src, q, (c - 1) as nat, x),
    ensures
        fibonacci::read_table(src, p, acc) == fibonacci::read_table(
            src,
            q + c - 1,
            acc.push((x - 1) as u32),
        ),
{
    law_class(7, src, p);
    law_suffix(src, q, (c - 1) as nat, x);
}

/// Two set bits, a class and the suffix behind it are a run of as many zero
/// frequencies as the suffix spells, at most up to the end of the table.
pub proof fn law_read_zero_run(
    src: Seq<bool>,
    p: int,
    q: int,
    c: nat,
    x: nat,
    acc: Seq<u32>,
)
    requires
        acc.len() < 256,
        0 <= p,
        pair_at(src, p),
        is_class(src, p + 2, q, 7, c),
        spells(src, q, (c - 1) as nat, x),
    ensures
        ({
            let run = x % 0x1_0000_0000;
            let left = (256 - acc.len()) as nat;
            fibonacci::read_table(src, p, acc) == fibonacci::read_table(
                src,
                q + c - 1,
                acc + Seq::new(
                    if run <= left {
                        run
                    } else {
                        left
                    },
                    |i: int| 0u32,
                ),
            )
        }),
{
    assert(is_class(src, p, p + 2, 7, 1));
    law_class(7, src, p);
    law_class(7, src, p + 2);
    law_suffix(src, q, (c - 1) as nat, x);
    let run = x % 0x1_0000_0000;
    let left = (256 - acc.len()) as nat;
    let n = if run <= left {
        run
    } else {
        left
    };
    assert(fibonacci::zeros(n) =~= Seq::new(n, |i: int| 0u32));
}

/// A table is complete with its 256th frequency, and ends where that one
/// ends.
pub proof fn law_table_complete(src: Seq<bool>, p: int, acc: Seq<u32>)
    requires
        acc.len() == 256,
    ensures
        fibonacci::read_table(src, p, acc) == Ok::<(Seq<u32>, int), Error>((acc, p)),
        legacy_range_coder::read_table(src, p, acc) == Ok::<(Seq<u32>, int), Error>((acc, p)),
{
}

/// An unfinished table is refused where there is no class, where a class is
/// above 32, and where the stream ends inside a suffix.
pub proof fn law_table_refused(src: Seq<bool>, p: int, q: int, c: nat, acc: Seq<u32>)
    requires
        acc.len() < 256,
        0 <= p <= src.len(),
    ensures
        (forall|q1: int, c1: nat| !#[trigger] is_class(src, p, q1, 7, c1))
            ==> fibonacci::read_table(src, p, acc) is Err,
        is_class(src, p, q, 7, c) && c > 32 ==> fibonacci::read_table(src, p, acc) == Err::<
            (Seq<u32>, int),
            Error,
        >(Error::FibonacciOverflow),
        is_class(src, p, q, 7, c) && 2 <= c <= 32 && q + c - 1 > src.len()
            ==> fibonacci::read_table(src, p, acc) == Err::<(Seq<u32>, int), Error>(
            Error::Truncated { context: "Fibonacci prefix bit stream" },
        ),
        pair_at(src, p) && p + 2 <= src.len() && (forall|q1: int, c1: nat|
            !#[trigger] is_class(src, p + 2, q1, 7, c1)) ==> fibonacci::read_table(
            src,
            p,
            acc,
        ) is Err,
        pair_at(src, p) && p + 2 <= src.len() && is_class(src, p + 2, q, 7, c) && q + c - 1
            > src.len() ==> fibonacci::read_table(src, p, acc) == Err::<(Seq<u32>, int), Error>(
            Error::Truncated { context: "Fibonacci prefix bit stream" },
        ),
        (forall|q1: int, c1: nat| !#[trigger] is_class(src, p, q1, 8, c1))
            ==> legacy_range_coder::read_table(src, p, acc) is Err,
        is_class(src, p, q, 8, c) && c > 32 ==> legacy_range_coder::read_table(src, p, acc)
            == Err::<(Seq<u32>, int), Error>(Error::FibonacciOverflow),
        is_class(src, p, q, 8, c) && 1 <= c <= 32 && q + c - 1 > src.len()
            ==> legacy_range_coder::read_table(src, p, acc) == Err::<(Seq<u32>, int), Error>(
            Error::Truncated { context: "Fibonacci prefix bit stream" },
        ),
{
    law_class(7, src, p);
    law_class(8, src, p);
    if fibonacci::read_fib_code(7, src, p) is Ok {
        let r = fibonacci::read_fib_code(7, src, p)->Ok_0;
        assert(is_class(src, p, r.1, 7, r.0));
    }
    if pair_at(src, p) && p + 2 <= src.len() {
        assert(is_class(src, p, p + 2, 7, 1));
        law_class(7, src, p + 2);
        if fibonacci::read_fib_code(7, src, p + 2) is Ok {
            let r = fibonacci::read_fib_code(7, src, p + 2)->Ok_0;
            assert(is_class(src, p + 2, r.1, 7, r.0));
        }
    }
    if fibonacci::read_fib_code(8, src, p) is Ok {
        let r = fibonacci::read_fib_code(8, src, p)->Ok_0;
        assert(is_class(src, p, r.1, 8, r.0));
    }
    if c >= 1 && q >= 0 {
        law_suffix(src, q, (c - 1) as nat, 0);
    }
}

/// In an obsolete table, every class from 1 to 32 and the suffix behind it
/// are one frequency, one less than the number that the suffix spells.
pub proof fn law_read_legacy_frequency(
    src: Seq<bool>,
    p: int,
    q: int,
    c: nat,
    x: nat,
    acc: Seq<u32>,
)
    requires
        acc.len() < 256,
        is_class(src, p, q, 8, c),
        1 <= c <= 32,
        spells(src, q, (c - 1) as nat, x),
    ensures
        legacy_range_coder::read_table(src, p, acc) == legacy_range_coder::read_table(
            src,
            q + c - 1,
            acc.push((x - 1) as u32),
        ),
{
    law_class(8, src, p);
    law_suffix(src, q, (c - 1) as nat, x);
}

/// A number of `m + 1` bits is written as the class `m + 1` and the bits
/// behind its leading one.
pub proof fn law_number_code(v: nat, m: nat)
    requires
        1 <= v <= u32::MAX,
        pow2(m) <= v < 2 * pow2(m),
    ensures
        ({
            let code = fibonacci::number_code(v);
            &&& is_class(code, 0, code.len() - m, 7, m + 1)
            &&& spells(code, code.len() - m, m, v)
        }),
{
    let code = fibonacci::number_code(v);
    let k = fibonacci::magnitude(v);
    fibonacci::lemma_magnitude(v);
    vstd::arithmetic::power2::lemma_pow2_unfold(k + 1);
    vstd::arithmetic::power2::lemma_pow2_unfold(m + 1);
    if m < k {
        if m + 1 < k {
            vstd::arithmetic::power2::lemma_pow2_strictly_increases(m + 1, k);
        }
    }
    if k < m {
        if k + 1 < m {
            vstd::arithmetic::power2::lemma_pow2_strictly_increases(k + 1, m);
        }
    }
    assert(k == m);
    vstd::arithmetic::power2::lemma2_to64();
    fibonacci::lemma_magnitude_bound(v, 32);
    fibonacci::lemma_fib_values();
    fibonacci::lemma_low_bits(v, m);
    fibonacci::lemma_spelled_low_bits(v);
    let head = fibonacci::fib_code(m + 1);
    let q = head.len() as int;
    assert(bits::code_at(code, 0, head)) by {
        assert forall|i: int| 0 <= i < head.len() implies code[0 + i] == #[trigger] head[i] by {}
    }
    fibonacci::lemma_read_fib_code(7, code, 0, m + 1);
    law_class(7, code, 0);
    assert(code.subrange(q, q + m) =~= fibonacci::low_bits(v, m));
    law_suffix(code, q, m, v);
}

/// A frequency other than zero is written as the number one above it.
pub proof fn law_frequency_written(f: Seq<u32>, j: int)
    requires
        0 <= j < f.len(),
        f[j] != 0,
    ensures
        fibonacci::table_code(f, j) == fibonacci::number_code(f[j] as nat + 1)
            + fibonacci::table_code(f, j + 1),
{
}

/// A run of zero frequencies, as long as it goes on, is written as two set
/// bits and its length.
pub proof fn law_zero_run_written(f: Seq<u32>, j: int, r: nat)
    requires
        0 <= j,
        0 < r,
        j + r <= f.len(),
        forall|i: int| j <= i < j + r ==> #[trigger] f[i] == 0,
        j + r < f.len() ==> f[j + r] != 0,
    ensures
        fibonacci::table_code(f, j) == seq![true, true] + fibonacci::number_code(r)
            + fibonacci::table_code(f, j + r),
{
    lemma_zero_frequencies(f, j, r);
    fibonacci::lemma_fib_values();
    reveal_with_fuel(fibonacci::fib_width, 10);
    reveal_with_fuel(fibonacci::zeckendorf, 3);
    assert(fibonacci::fib_width(9, 1) == 1);
    assert(fibonacci::fib_code(1) =~= seq![true, true]);
}

proof fn lemma_zero_frequencies(f: Seq<u32>, j: int, r: nat)
    requires
        0 <= j,
        j + r <= f.len(),
        forall|i: int| j <= i < j + r ==> #[trigger] f[i] == 0,
        j + r < f.len() ==> f[j + r] != 0,
    ensures
        fibonacci::zero_run(f, j) == r,
    decreases r,
{
    if r > 0 {
        lemma_zero_frequencies(f, j + 1, (r - 1) as nat);
    }
}

/// In an obsolete table, every frequency is written as the number one above
/// it.
pub proof fn law_legacy_frequency_written(f: Seq<u32>, j: int)
    requires
        0 <= j < f.len(),
        f[j] < u32::MAX,
    ensures
        legacy_range_coder::table_code(f, j) == fibonacci::number_code(f[j] as nat + 1)
            + legacy_range_coder::table_code(f, j + 1),
{
}

// ---------------------------------------------------------------------
// Range-coded streams
// ---------------------------------------------------------------------

/// The shares of the symbols lie side by side in the order of the symbols,
/// each as wide as its frequency.
pub proof fn law_shares(f: Seq<u32>, s: int)
    requires
        0 <= s < 256,
    ensures
        interval::cum(f, 0) == 0,
        interval::cum(f, s + 1) - interval::cum(f, s) == f[s],
        interval::mass(f) == interval::cum(f, 256),
{
}

/// A decoder starts with the first 31 bits of a stream and a range of
/// `2^31`.
pub proof fn law_opened(src: Seq<u8>)
    requires
        src.len() >= 4,
    ensures
        interval::opened(src).low == (0x100_0000 * src[0] + 0x1_0000 * src[1] + 0x100 * src[2]
            + src[3]) / 2,
        interval::opened(src).range == 0x8000_0000,
        interval::opened(src).cursor == 3,
{
    reveal_with_fuel(digits::padded_value, 5);
}

/// The byte at a place of a stream, and zero behind its end.
pub open spec fn byte_or_nothing(src: Seq<u8>, i: int) -> int {
    if 0 <= i < src.len() {
        src[i] as int
    } else {
        0
    }
}

/// A range above `2^23` stays as it is. A smaller one is scaled up by a byte
/// and takes in the eight bits behind those that were read: the last bit of
/// the byte at the cursor and all but the last of the next.
pub proof fn law_refill(src: Seq<u8>, w: Window)
    requires
        0 <= w.cursor <= src.len(),
    ensures
        w.range > 0x0080_0000 ==> interval::refilled(src, w) == w
            && legacy_range_coder::refilled_mod(src, w) == w,
        0 < w.range <= 0x0080_0000 ==> ({
            let taken = 128 * (byte_or_nothing(src, w.cursor) % 2) + byte_or_nothing(
                src,
                w.cursor + 1,
            ) / 2;
            let cursor: int = if w.cursor < src.len() {
                w.cursor + 1
            } else {
                w.cursor
            };
            &&& interval::refilled(src, w) == interval::refilled(
                src,
                (Window { low: 256 * w.low + taken, range: 256 * w.range, cursor }),
            )
            &&& legacy_range_coder::refilled_mod(src, w) == legacy_range_coder::refilled_mod(
                src,
                (Window {
                    low: (256 * w.low) % 0x1_0000_0000 + taken,
                    range: 256 * w.range,
                    cursor,
                }),
            )
        }),
{
}

/// The range is cut into as many equal units as there are counts in the
/// table. The symbol whose units hold the offset is the next one, and its
/// units are the new range. What is left over behind the last unit stands
/// for 255. Without a unit for each count, no symbol can be told.
pub proof fn law_decoded_symbol(src: Seq<u8>, f: Seq<u32>, w: Window, s: int)
    requires
        0 < interval::mass(f) <= w.range,
        0 <= s < 256,
    ensures
        ({
            let unit = w.range / interval::mass(f);
            let start = interval::cum(f, s) * unit;
            let rest = interval::mass(f) * unit;
            &&& start <= w.low < start + f[s] * unit ==> range_coder::decode_step(src, f, w)
                == Some(
                (
                    s as u8,
                    interval::refilled(
                        src,
                        Window { low: w.low - start, range: f[s] * unit, cursor: w.cursor },
                    ),
                ),
            )
            &&& w.low >= rest ==> range_coder::decode_step(src, f, w) == Some(
                (
                    255u8,
                    interval::refilled(
                        src,
                        Window { low: w.low - rest, range: w.range - rest, cursor: w.cursor },
                    ),
                ),
            )
        }),
{
    let total = interval::mass(f);
    let unit = w.range / total;
    let start = interval::cum(f, s) * unit;
    assert(unit >= 1) by (nonlinear_arith)
        requires
            unit == w.range / total,
            0 < total <= w.range,
    ;
    if start <= w.low < start + f[s] * unit {
        let t = w.low / unit;
        interval::lemma_cum_monotone(f, 0, s);
        lemma_units(w.low, unit, interval::cum(f, s), f[s] as int);
        assert(interval::holds(f, s, t));
        interval::lemma_symbol_unique(f, t, s);
        interval::lemma_cum_monotone(f, s + 1, 256);
        assert(w.low < total * unit) by (nonlinear_arith)
            requires
                w.low < start + f[s] * unit,
                start == interval::cum(f, s) * unit,
                interval::cum(f, s) + f[s] <= total,
                unit >= 1,
        ;
    }
}

/// An offset within some units lies in one of them.
proof fn lemma_units(low: int, unit: int, start: int, width: int)
    requires
        unit >= 1,
        start >= 0,
        start * unit <= low < start * unit + width * unit,
    ensures
        start <= low / unit < start + width,
{
    vstd::arithmetic::div_mod::lemma_fundamental_div_mod(low, unit);
    let t = low / unit;
    assert(start <= t) by (nonlinear_arith)
        requires
            start * unit <= low,
            low < unit * t + unit,
            unit >= 1,
    ;
    assert(t < start + width) by (nonlinear_arith)
        requires
            low < start * unit + width * unit,
            unit * t <= low,
            unit >= 1,
    ;
}

/// Where the range has fewer units than the table has counts, decoding
/// stops.
pub proof fn law_range_too_small(src: Seq<u8>, f: Seq<u32>, layout: CdfLayout, w: Window)
    requires
        0 <= w.range < interval::mass(f),
    ensures
        range_coder::decode_step(src, f, w) is None,
        legacy_range_coder::decode_step_in(src, f, layout, w) is None,
{
    assert(w.range / interval::mass(f) == 0) by (nonlinear_arith)
        requires
            0 <= w.range < interval::mass(f),
    ;
}

/// The obsolete coder cuts the range in the same way, but the last symbol in
/// use takes in what is left over behind its units.
pub proof fn law_legacy_decoded_symbol(src: Seq<u8>, g: Seq<u32>, w: Window, s: int)
    requires
        0 < interval::mass(g) <= w.range,
        0 <= w.low,
        0 <= s < 256,
        g[s] > 0,
    ensures
        ({
            let unit = w.range / interval::mass(g);
            let start = interval::cum(g, s) * unit;
            let last = interval::cum(g, s) + g[s] == interval::mass(g);
            let width = if last {
                w.range - start
            } else {
                g[s] * unit
            };
            start <= w.low && (last || w.low < start + g[s] * unit)
                ==> legacy_range_coder::decode_step(src, g, w) == Some(
                (
                    s as u8,
                    legacy_range_coder::refilled_mod(
                        src,
                        Window { low: w.low - start, range: width, cursor: w.cursor },
                    ),
                ),
            )
        }),
{
    let total = interval::mass(g);
    let unit = w.range / total;
    let lo = interval::cum(g, s);
    let start = lo * unit;
    let last = lo + g[s] == total;
    assert(unit >= 1) by (nonlinear_arith)
        requires
            unit == w.range / total,
            0 < total <= w.range,
    ;
    if start <= w.low && (last || w.low < start + g[s] * unit) {
        let t = legacy_range_coder::target_of(w, total, unit);
        interval::lemma_cum_monotone(g, 0, s);
        interval::lemma_cum_monotone(g, s + 1, 256);
        if w.low < start + g[s] * unit {
            lemma_units(w.low, unit, lo, g[s] as int);
        } else {
            vstd::arithmetic::div_mod::lemma_fundamental_div_mod(w.low, unit);
            assert(w.low / unit >= total) by (nonlinear_arith)
                requires
                    w.low >= start + g[s] * unit,
                    start == lo * unit,
                    lo + g[s] == total,
                    w.low < unit * (w.low / unit) + unit,
                    unit >= 1,
            ;
        }
        assert(interval::holds(g, s, t));
        interval::lemma_symbol_unique(g, t, s);
    }
}

/// With gaps, symbol `c` starts one unit further behind for every symbol
/// before it, and is the one for all offsets from there up to the start of
/// the next. An offset behind all units counts as being in the last.
pub proof fn law_gapped_decoded_symbol(src: Seq<u8>, g: Seq<u32>, w: Window, c: int)
    requires
        0 < interval::mass(g) <= w.range,
        0 <= w.low,
        0 <= c < 256,
    ensures
        ({
            let total = interval::mass(g);
            let unit = w.range / total;
            let t = if w.low / unit < total {
                w.low / unit
            } else {
                total - 1
            };
            let start = interval::cum(g, c) + c;
            let width = if start + g[c] == total {
                w.range - start * unit
            } else {
                g[c] * unit
            };
            start <= t && (c == 255 || t < start + g[c] + 1)
                ==> legacy_range_coder::decode_step_in(src, g, CdfLayout::PairPacked, w) == if width
                == 0 {
                None
            } else {
                Some(
                    (
                        c as u8,
                        legacy_range_coder::refilled_mod(
                            src,
                            Window { low: w.low - start * unit, range: width, cursor: w.cursor },
                        ),
                    ),
                )
            }
        }),
{
    let total = interval::mass(g);
    let unit = w.range / total;
    assert(unit >= 1) by (nonlinear_arith)
        requires
            unit == w.range / total,
            0 < total <= w.range,
    ;
    let t = legacy_range_coder::target_of(w, total, unit);
    let start = interval::cum(g, c) + c;
    if start <= t && (c == 255 || t < start + g[c] + 1) {
        assert(legacy_range_coder::gapped_holds(g, c, t));
        let d = legacy_range_coder::gapped_symbol(g, t);
        assert(legacy_range_coder::gapped_holds(g, d, t));
        if d < c {
            interval::lemma_cum_monotone(g, d + 1, c);
        }
        if c < d {
            interval::lemma_cum_monotone(g, c + 1, d);
        }
    }
}

/// A run of symbols is decoded one by one, each from the window that the one
/// before has left.
pub proof fn law_decoded_run(src: Seq<u8>, f: Seq<u32>, layout: CdfLayout, n: nat)
    ensures
        range_coder::decode_run(src, f, 0) == Some((Seq::<u8>::empty(), interval::opened(src))),
        range_coder::decode_run(src, f, n + 1) matches Some(x) ==> {
            &&& x.0.len() > 0
            &&& range_coder::decode_run(src, f, n) matches Some(y) && y.0 == x.0.drop_last()
                && range_coder::decode_step(src, f, y.1) == Some((x.0.last(), x.1))
        },
        legacy_range_coder::decode_run(src, f, layout, 0) == Some(
            (Seq::<u8>::empty(), interval::opened(src)),
        ),
        legacy_range_coder::decode_run(src, f, layout, n + 1) matches Some(x) ==> {
            &&& x.0.len() > 0
            &&& legacy_range_coder::decode_run(src, f, layout, n) matches Some(y) && y.0
                == x.0.drop_last() && legacy_range_coder::decode_step_in(src, f, layout, y.1) == Some(
                (x.0.last(), x.1),
            )
        },
{
    if range_coder::decode_run(src, f, n + 1) is Some {
        let y = range_coder::decode_run(src, f, n).unwrap();
        let x = range_coder::decode_run(src, f, n + 1).unwrap();
        assert(x.0.drop_last() =~= y.0);
    }
    if legacy_range_coder::decode_run(src, f, layout, n + 1) is Some {
        let y = legacy_range_coder::decode_run(src, f, layout, n).unwrap();
        let x = legacy_range_coder::decode_run(src, f, layout, n + 1).unwrap();
        assert(x.0.drop_last() =~= y.0);
    }
}

/// An encoder starts with the range `2^31`, narrows it to the units of each
/// symbol, and scales it up by a byte as long as it is not above `2^23`.
pub proof fn law_encoded_symbol(f: Seq<u32>, stretch: bool, i: Interval, s: int)
    ensures
        interval::whole() == (Interval { low: 0, range: 0x8000_0000, shifts: 0 }),
        ({
            let unit = i.range / interval::mass(f);
            let start = interval::cum(f, s) * unit;
            interval::encode_step(f, stretch, i, s) == interval::renormalised(
                (Interval {
                    low: i.low + start,
                    range: if stretch && interval::cum(f, s + 1) == interval::mass(f) {
                        i.range - start
                    } else {
                        f[s] * unit
                    },
                    shifts: i.shifts,
                }),
            )
        }),
        i.range > 0x0080_0000 ==> interval::renormalised(i) == i,
        0 < i.range <= 0x0080_0000 ==> interval::renormalised(i) == interval::renormalised(
            (Interval { low: 256 * i.low, range: 256 * i.range, shifts: i.shifts + 1 }),
        ),
{
}

/// A stream ends with the lower end of its interval and one zero bit, most
/// significant byte first.
pub proof fn law_flushed(i: Interval, k: int)
    requires
        i.low >= 0,
        0 <= k < i.shifts + 4,
    ensures
        interval::flushed(i).len() == i.shifts + 4,
        interval::flushed(i)[k] as nat == ((2 * i.low) as nat / pow2(
            (8 * (i.shifts + 3 - k)) as nat,
        )) % 256,
{
    lemma_be_byte((2 * i.low) as nat, i.shifts + 4, k);
}

proof fn lemma_be_byte(v: nat, n: nat, k: int)
    requires
        0 <= k < n,
    ensures
        digits::be_bytes(v, n).len() == n,
        digits::be_bytes(v, n)[k] as nat == (v / pow2((8 * (n - 1 - k)) as nat)) % 256,
    decreases n,
{
    digits::lemma_be_bytes_len(v, n);
    digits::lemma_be_bytes_len(v / 256, (n - 1) as nat);
    vstd::arithmetic::power2::lemma2_to64();
    if k == n - 1 {
        assert(v / 1 == v);
    } else {
        let d = (8 * (n - 2 - k)) as nat;
        lemma_be_byte(v / 256, (n - 1) as nat, k);
        vstd::arithmetic::power2::lemma_pow2_adds(8, d);
        vstd::arithmetic::power2::lemma_pow2_pos(d);
        vstd::arithmetic::div_mod::lemma_div_denominator(v as int, 256, pow2(d) as int);
    }
}

// ---------------------------------------------------------------------
// Channels
// ---------------------------------------------------------------------

/// Numbers of four bytes come least significant byte first.
pub proof fn law_le32(s: Seq<u8>, i: int, v: nat)
    requires
        0 <= i,
        i + 4 <= s.len(),
    ensures
        wire::le32(s, i) == s[i] + 256 * (s[i + 1] + 256 * (s[i + 2] + 256 * s[i + 3])),
        wire::le32_bytes(v).len() == 4,
        v < 0x1_0000_0000 ==> v == wire::le32_bytes(v)[0] + 256 * (wire::le32_bytes(v)[1] + 256 * (
        wire::le32_bytes(v)[2] + 256 * wire::le32_bytes(v)[3])),
{
    let b = wire::le32_bytes(v);
    if v < 0x1_0000_0000 {
        assert(v == v % 256 + 256 * (v / 256));
        assert(v / 256 == v / 256 % 256 + 256 * (v / 0x1_0000));
        assert(v / 0x1_0000 == v / 0x1_0000 % 256 + 256 * (v / 0x100_0000));
    }
}

/// The channels without a frequency table. Header 0xff repeats one byte,
/// header 4 holds the samples themselves, and headers 5 to 7 hold them with
/// escapes of one to three zeros. No other header above 3 is legal.
pub proof fn law_plain_channels(ch: Seq<u8>, n: nat)
    requires
        ch.len() >= 1,
    ensures
        ch[0] == 0xff && ch.len() >= 2 ==> channel::plane_of(ch, n) == Ok::<Seq<u8>, Error>(
            Seq::new(n, |i: int| ch[1]),
        ),
        ch[0] == 0xff && ch.len() < 2 ==> channel::plane_of(ch, n) == Err::<Seq<u8>, Error>(
            Error::Truncated { context: "header 0xff fill byte" },
        ),
        ch[0] == 4 && ch.len() > n ==> channel::plane_of(ch, n) == Ok::<Seq<u8>, Error>(
            Seq::new(n, |i: int| ch[1 + i]),
        ),
        ch[0] == 4 && ch.len() <= n ==> channel::plane_of(ch, n) == Err::<Seq<u8>, Error>(
            Error::Truncated { context: "header 0x04 raw plane data" },
        ),
        5 <= ch[0] <= 7 ==> channel::plane_of(ch, n) == match rle::expand(
            ch.skip(1),
            (ch[0] - 4) as nat,
            n,
        ) {
            Ok(x) => Ok::<Seq<u8>, Error>(x.0),
            Err(e) => Err::<Seq<u8>, Error>(e),
        },
        7 < ch[0] < 0xff ==> channel::plane_of(ch, n) == Err::<Seq<u8>, Error>(
            Error::BadChannelHeader(ch[0]),
        ),
{
    if ch[0] == 0xff {
        assert(digits::repeat(ch[1], n) =~= Seq::new(n, |i: int| ch[1]));
    }
    if ch[0] == 4 && ch.len() > n {
        assert(ch.subrange(1, 1 + n as int) =~= Seq::new(n, |i: int| ch[1 + i]));
    }
}

/// The channels with a frequency table. Header 0 holds one symbol for each
/// sample behind its header byte, unless the four bytes there are zero,
/// which stands for a plane of zeros. Headers 1 to 3 hold as many symbols as
/// the four bytes behind the header count, with escapes of one to three
/// zeros; a count that is not below the number of samples makes them as
/// header 0.
pub proof fn law_coded_channels(ch: Seq<u8>, n: nat)
    requires
        ch.len() >= 5,
        ch[0] <= 3,
    ensures
        ({
            let count = (ch[1] + 256 * (ch[2] + 256 * (ch[3] + 256 * ch[4]))) as nat;
            let bare = ch[0] == 0 || count >= n;
            &&& bare && count == 0 ==> channel::plane_of(ch, n) == Ok::<Seq<u8>, Error>(
                Seq::new(n, |i: int| 0u8),
            )
            &&& bare && count != 0 ==> channel::plane_of(ch, n) == channel::coded_symbols(ch, 1, n)
            &&& !bare ==> channel::plane_of(ch, n) == match channel::coded_symbols(ch, 5, count) {
                Ok(syms) => match rle::expand(syms, ch[0] as nat, n) {
                    Ok(x) => Ok::<Seq<u8>, Error>(x.0),
                    Err(e) => Err::<Seq<u8>, Error>(e),
                },
                Err(e) => Err::<Seq<u8>, Error>(e),
            }
        }),
{
    law_le32(ch, 1, 0);
    assert(digits::repeat(0, n) =~= Seq::new(n, |i: int| 0u8));
}

/// A channel that is too short for the field that says what it holds.
pub proof fn law_short_channels(ch: Seq<u8>, n: nat)
    requires
        ch.len() < 5,
    ensures
        ch.len() == 0 ==> channel::plane_of(ch, n) == Err::<Seq<u8>, Error>(
            Error::Truncated { context: "channel header byte" },
        ),
        ch.len() > 0 && ch[0] == 0 ==> channel::plane_of(ch, n) == channel::coded_symbols(ch, 1, n),
        ch.len() > 0 && 1 <= ch[0] <= 3 ==> channel::plane_of(ch, n) == Err::<Seq<u8>, Error>(
            Error::Truncated { context: "header 0x01..0x03 u32 length field" },
        ),
{
}

/// The symbols behind a frequency table are a range-coded stream that starts
/// with the byte behind the last one that the table touches.
pub proof fn law_coded_symbols(ch: Seq<u8>, at: int, n: nat, f: Seq<u32>, p: int, touched: int)
    requires
        0 <= at <= ch.len(),
        0 <= p,
        fibonacci::read_table(bits::unpack(ch.skip(at)), 0, Seq::empty()) == Ok::<
            (Seq<u32>, int),
            Error,
        >((f, p)),
        8 * touched - 8 < p <= 8 * touched,
    ensures
        interval::mass(f) == 0 ==> channel::coded_symbols(ch, at, n) == Err::<Seq<u8>, Error>(
            Error::EmptyProbabilityTable,
        ),
        interval::mass(f) > u32::MAX ==> channel::coded_symbols(ch, at, n) == Err::<
            Seq<u8>,
            Error,
        >(Error::ProbabilityTableOverflow),
        0 < interval::mass(f) <= u32::MAX ==> channel::coded_symbols(ch, at, n) == if ch.len() - at
            - touched < 4 {
            Err::<Seq<u8>, Error>(Error::Truncated { context: "range-coder priming bytes" })
        } else {
            match range_coder::decode_run(ch.skip(at + touched), f, n) {
                Some(x) => Ok::<Seq<u8>, Error>(x.0),
                None => Err::<Seq<u8>, Error>(Error::ProbabilityTotalExceedsRange),
            }
        },
{
    law_bytes_for(p as nat);
    assert(touched == bits::bytes_for(p as nat));
    interval::lemma_cum_monotone(f, 0, 256);
    lemma_table_within(bits::unpack(ch.skip(at)), 0, Seq::empty());
    assert(bits::unpack(ch.skip(at)).len() == 8 * (ch.len() - at));
}

/// A table that is read ends inside its stream.
proof fn lemma_table_within(src: Seq<bool>, p: int, acc: Seq<u32>)
    requires
        0 <= p <= src.len(),
    ensures
        fibonacci::read_table(src, p, acc) matches Ok(x) ==> p <= x.1 <= src.len(),
    decreases src.len() - p,
{
    if acc.len() < 256 {
        law_class(7, src, p);
        if fibonacci::read_fib_code(7, src, p) is Ok {
            let a = fibonacci::read_fib_code(7, src, p)->Ok_0;
            let (v, p1) = a;
            assert(is_class(src, p, p1, 7, v));
            if v == 1 {
                law_class(7, src, p1);
                if fibonacci::read_fib_code(7, src, p1) is Ok {
                    let (c, p2) = fibonacci::read_fib_code(7, src, p1)->Ok_0;
                    assert(is_class(src, p1, p2, 7, c));
                    lemma_class_positive(src, p1, p2, 7, c);
                    let m = (c - 1) as nat;
                    if fibonacci::read_suffix(src, p2, m) is Some {
                        let x = fibonacci::read_suffix(src, p2, m).unwrap();
                        let run = x % 0x1_0000_0000;
                        let left = (256 - acc.len()) as nat;
                        lemma_table_within(
                            src,
                            p2 + m,
                            acc + fibonacci::zeros(
                                if run <= left {
                                    run
                                } else {
                                    left
                                },
                            ),
                        );
                    }
                }
            } else if v <= 32 {
                lemma_class_positive(src, p, p1, 7, v);
                let m = (v - 1) as nat;
                if fibonacci::read_suffix(src, p1, m) is Some {
                    let x = fibonacci::read_suffix(src, p1, m).unwrap();
                    lemma_table_within(src, p1 + m, acc.push((x - 1) as u32));
                }
            }
        }
    }
}

/// Classes count from one.
proof fn lemma_class_positive(src: Seq<bool>, p: int, q: int, limit: int, c: nat)
    requires
        is_class(src, p, q, limit, c),
        limit <= 8,
    ensures
        c >= 1,
{
    let k = q - 2 - p;
    assert(src[p + k]);
}

// ---------------------------------------------------------------------
// Channels of obsolete frames
// ---------------------------------------------------------------------

/// The symbols of an obsolete channel from `at` on, behind the table `f`:
/// one for each sample, over the table brought to a power of two. A table
/// with a rare-symbol cluster is coded with gaps.
pub open spec fn legacy_symbols_from(ch: Seq<u8>, at: int, f: Seq<u32>, n: nat) -> Result<Seq<u8>> {
    match legacy_range_coder::decode_run(
        ch.skip(at),
        legacy_range_coder::rescaled(f),
        if legacy_range_coder::rare_cluster(f) {
            CdfLayout::PairPacked
        } else {
            CdfLayout::Flat
        },
        n,
    ) {
        Some(x) => Ok(x.0),
        None => Err(Error::EmptyProbabilityTable),
    }
}

/// An obsolete channel with a plain table is two zero bytes, the table, and
/// the stream. The stream starts with the byte behind the last one that the
/// table touches. Only where the table fills that byte, one more is left
/// out.
pub proof fn law_legacy_bare_channel(ch: Seq<u8>, n: nat, f: Seq<u32>, p: int, touched: int)
    requires
        ch.len() >= 2,
        ch[0] == 0,
        ch[1] == 0,
        0 <= p,
        legacy_range_coder::read_table(bits::unpack(ch.skip(2)), 0, Seq::empty()) == Ok::<
            (Seq<u32>, int),
            Error,
        >((f, p)),
        0 < interval::mass(f) <= 0x8000_0000,
        8 * touched - 8 < p <= 8 * touched,
    ensures
        p % 8 != 0 && 2 + touched + 4 <= ch.len() ==> channel::legacy_plane_of(ch, n)
            == legacy_symbols_from(ch, 2 + touched, f, n),
        p % 8 == 0 && 3 + touched + 4 <= ch.len() ==> channel::legacy_plane_of(ch, n)
            == legacy_symbols_from(ch, 3 + touched, f, n),
        p % 8 != 0 && 2 + touched + 4 > ch.len() ==> channel::legacy_plane_of(ch, n) is Err,
        p % 8 == 0 && 3 + touched + 4 > ch.len() ==> channel::legacy_plane_of(ch, n) is Err,
{
    reveal(channel::legacy_plane_of);
    law_bytes_for(p as nat);
    assert(touched == bits::bytes_for(p as nat));
}

/// An obsolete channel with escapes in its table is their length, the number
/// of bytes that the table has without them, the table, and the stream. The
/// stream starts with the byte behind those that the escapes use up. Only
/// where the table fills its last byte, one more is left out.
pub proof fn law_legacy_escaped_channel(
    ch: Seq<u8>,
    n: nat,
    len: nat,
    table: Seq<u8>,
    used: int,
    f: Seq<u32>,
    p: int,
)
    requires
        ch.len() >= 5,
        1 <= ch[0] <= 3,
        len == ch[1] + 256 * (ch[2] + 256 * (ch[3] + 256 * ch[4])),
        0 < len <= 256,
        rle::expand(ch.skip(5), ch[0] as nat, len) == Ok::<(Seq<u8>, int), Error>((table, used)),
        legacy_range_coder::read_table(bits::unpack(table), 0, Seq::empty()) == Ok::<
            (Seq<u32>, int),
            Error,
        >((f, p)),
        0 < interval::mass(f) <= 0x8000_0000,
    ensures
        p % 8 != 0 && 5 + used + 4 <= ch.len() ==> channel::legacy_plane_of(ch, n)
            == legacy_symbols_from(ch, 5 + used, f, n),
        p % 8 == 0 && 6 + used + 4 <= ch.len() ==> channel::legacy_plane_of(ch, n)
            == legacy_symbols_from(ch, 6 + used, f, n),
{
    reveal(channel::legacy_plane_of);
    law_le32(ch, 1, 0);
    rle::lemma_expand_used(ch.skip(5), ch[0] as nat, len);
}

/// What obsolete channels are refused for at their head.
pub proof fn law_legacy_refused(ch: Seq<u8>, n: nat)
    ensures
        ch.len() == 0 ==> channel::legacy_plane_of(ch, n) == Err::<Seq<u8>, Error>(
            Error::Truncated { context: "legacy type-7 channel header" },
        ),
        ch.len() >= 2 && ch[0] == 0 && ch[1] != 0 ==> channel::legacy_plane_of(ch, n) == Err::<
            Seq<u8>,
            Error,
        >(Error::BadChannelHeader(ch[1])),
        ch.len() >= 1 && ch[0] > 3 ==> channel::legacy_plane_of(ch, n) == Err::<Seq<u8>, Error>(
            Error::BadChannelHeader(ch[0]),
        ),
        ch.len() >= 5 && 1 <= ch[0] <= 3 && ({
            let len = ch[1] + 256 * (ch[2] + 256 * (ch[3] + 256 * ch[4]));
            len == 0 || len > 256
        }) ==> channel::legacy_plane_of(ch, n) == Err::<Seq<u8>, Error>(
            Error::BadChannelHeader(ch[0]),
        ),
{
    reveal(channel::legacy_plane_of);
    if ch.len() >= 5 {
        law_le32(ch, 1, 0);
    }
}

/// A written obsolete channel is its header, its table and its stream. No
/// byte stands between the last two unless the table fills its last byte,
/// and then it is a zero.
pub proof fn law_legacy_written(p: Seq<u8>, e: nat)
    requires
        1 <= e <= 3,
    ensures
        ({
            let t = legacy_channel_encoder::table_for(p);
            let code = legacy_range_coder::table_code(t, 0);
            let table = legacy_range_coder::table_bytes(t);
            let stream = interval::stream_of(t, true, p);
            let n = table.len();
            &&& table == bits::pack(code)
            &&& code.len() % 8 != 0 ==> legacy_channel_encoder::bare_form(p) == seq![0u8, 0u8]
                + table + stream
            &&& code.len() % 8 == 0 ==> legacy_channel_encoder::bare_form(p) == seq![0u8, 0u8]
                + table + seq![0u8] + stream
            &&& code.len() % 8 != 0 && n < 0x1_0000 ==> legacy_channel_encoder::rle_form(p, e)
                == seq![e as u8, (n % 256) as u8, (n / 256) as u8, 0u8, 0u8] + rle::contract(
                table,
                e,
            ) + stream
            &&& code.len() % 8 == 0 && n < 0x1_0000 ==> legacy_channel_encoder::rle_form(p, e)
                == seq![e as u8, (n % 256) as u8, (n / 256) as u8, 0u8, 0u8] + rle::contract(
                table,
                e,
            ) + seq![0u8] + stream
        }),
{
    let t = legacy_channel_encoder::table_for(p);
    let code = legacy_range_coder::table_code(t, 0);
    let table = legacy_range_coder::table_bytes(t);
    let stream = interval::stream_of(t, true, p);
    let n = table.len();
    let bare = legacy_channel_encoder::bare_form(p);
    let esc = legacy_channel_encoder::rle_form(p, e);
    let head = seq![e as u8, (n % 256) as u8, (n / 256) as u8, 0u8, 0u8];
    if n < 0x1_0000 {
        assert(seq![e as u8] + wire::le32_bytes(n) =~= head);
    }
    if code.len() % 8 != 0 {
        assert(bare =~= seq![0u8, 0u8] + table + stream);
        if n < 0x1_0000 {
            assert(esc =~= head + rle::contract(table, e) + stream);
        }
    } else {
        assert(bare =~= seq![0u8, 0u8] + table + seq![0u8] + stream);
        if n < 0x1_0000 {
            assert(esc =~= head + rle::contract(table, e) + seq![0u8] + stream);
        }
    }
}

// ---------------------------------------------------------------------
// Frames
// ---------------------------------------------------------------------

/// Three channels lie behind a type byte and two offsets of four bytes. The
/// offsets count from the start of the frame to the second and the third
/// channel.
pub proof fn law_three_channels(f: Seq<u8>)
    requires
        f.len() >= 9,
    ensures
        ({
            let a = f[1] + 256 * (f[2] + 256 * (f[3] + 256 * f[4]));
            let b = f[5] + 256 * (f[6] + 256 * (f[7] + 256 * f[8]));
            &&& frame::split_error(f, 3) is None <==> 9 <= a <= b <= f.len()
            &&& !(9 <= a <= b <= f.len()) ==> frame::split_error(f, 3) == Some(
                Error::OffsetOutOfRange,
            )
            &&& frame::channel_at(f, 3, 0) == f.subrange(9, a)
            &&& frame::channel_at(f, 3, 1) == f.subrange(a, b)
            &&& frame::channel_at(f, 3, 2) == f.subrange(b, f.len() as int)
        }),
{
    law_le32(f, 1, 0);
    law_le32(f, 5, 0);
    assert(frame::ordered_at(f, 3, 0) && frame::ordered_at(f, 3, 1) && frame::ordered_at(f, 3, 2)
        <==> frame::offsets_ordered(f, 3));
}

/// Four channels lie behind a type byte and three offsets.
pub proof fn law_four_channels(f: Seq<u8>)
    requires
        f.len() >= 13,
    ensures
        ({
            let a = f[1] + 256 * (f[2] + 256 * (f[3] + 256 * f[4]));
            let b = f[5] + 256 * (f[6] + 256 * (f[7] + 256 * f[8]));
            let c = f[9] + 256 * (f[10] + 256 * (f[11] + 256 * f[12]));
            &&& frame::split_error(f, 4) is None <==> 13 <= a <= b <= c <= f.len()
            &&& !(13 <= a <= b <= c <= f.len()) ==> frame::split_error(f, 4) == Some(
                Error::OffsetOutOfRange,
            )
            &&& frame::channel_at(f, 4, 0) == f.subrange(13, a)
            &&& frame::channel_at(f, 4, 1) == f.subrange(a, b)
            &&& frame::channel_at(f, 4, 2) == f.subrange(b, c)
            &&& frame::channel_at(f, 4, 3) == f.subrange(c, f.len() as int)
        }),
{
    law_le32(f, 1, 0);
    law_le32(f, 5, 0);
    law_le32(f, 9, 0);
    assert(frame::ordered_at(f, 4, 0) && frame::ordered_at(f, 4, 1) && frame::ordered_at(f, 4, 2)
        && frame::ordered_at(f, 4, 3) <==> frame::offsets_ordered(f, 4));
}

/// A frame that ends inside its offsets has no channels.
pub proof fn law_offsets_missing(f: Seq<u8>)
    ensures
        f.len() < 9 ==> frame::split_error(f, 3) == Some(
            Error::Truncated { context: "channel-offset table" },
        ),
        f.len() < 13 ==> frame::split_error(f, 4) == Some(
            Error::Truncated { context: "channel-offset table" },
        ),
{
}

/// A written frame has its offsets and its channels one behind the other.
pub proof fn law_written_frame(t: u8, a: Seq<u8>, b: Seq<u8>, c: Seq<u8>, d: Seq<u8>)
    ensures
        frame::packed(t, seq![a, b, c]) == seq![t] + wire::le32_bytes(9 + a.len())
            + wire::le32_bytes(9 + a.len() + b.len()) + a + b + c,
        frame::packed(t, seq![a, b, c, d]) == seq![t] + wire::le32_bytes(13 + a.len())
            + wire::le32_bytes(13 + a.len() + b.len()) + wire::le32_bytes(
            13 + a.len() + b.len() + c.len(),
        ) + a + b + c + d,
{
    let three = seq![a, b, c];
    let four = seq![a, b, c, d];
    reveal_with_fuel(frame::length_to, 5);
    reveal_with_fuel(frame::joined_to, 5);
    reveal_with_fuel(frame::offsets_to, 5);
    assert(frame::packed(t, three) =~= seq![t] + wire::le32_bytes(9 + a.len()) + wire::le32_bytes(
        9 + a.len() + b.len(),
    ) + a + b + c);
    assert(frame::packed(t, four) =~= seq![t] + wire::le32_bytes(13 + a.len())
        + wire::le32_bytes(13 + a.len() + b.len()) + wire::le32_bytes(
        13 + a.len() + b.len() + c.len(),
    ) + a + b + c + d);
}

/// A frame of type 1 holds its buffer behind the type byte.
pub proof fn law_plain_frame(f: Seq<u8>, width: u32, height: u32, kind: PixelKind, size: nat)
    requires
        f.len() > 0,
        f[0] == 1,
        width > 0,
        height > 0,
        ({
            let n = width as nat * height as nat;
            size == match kind {
                PixelKind::Bgr24 => 3 * n,
                PixelKind::Bgra32 => 4 * n,
                PixelKind::Yuy2 => 2 * n,
                PixelKind::Yv12 => n + n / 4 + n / 4,
            }
        }),
    ensures
        decoder::frame_pixels(f, width, height, kind) == if f.len() > size {
            Ok::<Seq<u8>, Error>(Seq::new(size, |i: int| f[1 + i]))
        } else {
            Err::<Seq<u8>, Error>(Error::Truncated { context: "uncompressed frame body" })
        },
{
    if f.len() > size {
        assert(f.subrange(1, 1 + size as int) =~= Seq::new(size, |i: int| f[1 + i]));
    }
}

/// The colour bytes of a frame of one colour: grey for type 5, blue, green
/// and red for type 6, and alpha behind them for type 9.
pub open spec fn solid_byte(f: Seq<u8>, c: int) -> u8 {
    if c == 3 {
        if f[0] == 9 {
            f[4]
        } else {
            0xff
        }
    } else if f[0] == 5 {
        f[1]
    } else {
        f[1 + c]
    }
}

/// Every pixel of a frame of type 5, 6 or 9 has the colour in its payload,
/// in the order blue, green, red, alpha.
pub proof fn law_solid_frame(f: Seq<u8>, width: u32, height: u32)
    requires
        f.len() > 0,
        f[0] == 5 || f[0] == 6 || f[0] == 9,
        width > 0,
        height > 0,
    ensures
        ({
            let n = width as nat * height as nat;
            let need: int = if f[0] == 5 {
                2
            } else if f[0] == 6 {
                4
            } else {
                5
            };
            let bgr = decoder::frame_pixels(f, width, height, PixelKind::Bgr24);
            let bgra = decoder::frame_pixels(f, width, height, PixelKind::Bgra32);
            &&& f.len() >= need ==> bgr == Ok::<Seq<u8>, Error>(
                Seq::new(3 * n, |i: int| solid_byte(f, i % 3)),
            )
            &&& f.len() >= need ==> bgra == Ok::<Seq<u8>, Error>(
                Seq::new(4 * n, |i: int| solid_byte(f, i % 4)),
            )
            &&& f.len() < need ==> bgr == Err::<Seq<u8>, Error>(
                Error::Truncated { context: "solid-frame colour bytes" },
            ) && bgra == bgr
        }),
{
    let n = width as nat * height as nat;
    let bgr = decoder::frame_pixels(f, width, height, PixelKind::Bgr24);
    let bgra = decoder::frame_pixels(f, width, height, PixelKind::Bgra32);
    if bgr is Ok {
        assert(bgr->Ok_0 =~= Seq::new(3 * n, |i: int| solid_byte(f, i % 3)));
        assert(bgra->Ok_0 =~= Seq::new(4 * n, |i: int| solid_byte(f, i % 4)));
    }
}

/// The plane that an RGB channel stands for, before green is added back.
pub open spec fn rgb_plane(w: int, residuals: Seq<u8>) -> Seq<u8> {
    predict::rebuilt(Predictor::Median(FirstColRule::B), w, residuals)
}

/// Pixel `i` of an RGB buffer with `k` bytes for each pixel comes from
/// sample `i` of the planes: green as it is, blue and red less green.
pub open spec fn is_rgb_pixel(
    px: Seq<u8>,
    k: int,
    b: Seq<u8>,
    g: Seq<u8>,
    r: Seq<u8>,
    i: int,
) -> bool {
    &&& px[k * i + 1] == g[i]
    &&& (px[k * i] - px[k * i + 1]) % 256 == b[i]
    &&& (px[k * i + 2] - px[k * i + 1]) % 256 == r[i]
}

/// Frames of type 2, 4 and 7 hold blue, green and red, in this order, as
/// planes under rule B, blue and red less green.
pub proof fn law_rgb_frame(
    f: Seq<u8>,
    width: u32,
    height: u32,
    rb: Seq<u8>,
    rg: Seq<u8>,
    rr: Seq<u8>,
)
    requires
        f.len() > 0,
        width > 0,
        height > 0,
        frame::split_error(f, 3) is None,
        ({
            let n = width as nat * height as nat;
            let ok = |r: Seq<u8>| Ok::<Seq<u8>, Error>(r);
            let b = frame::channel_at(f, 3, 0);
            let g = frame::channel_at(f, 3, 1);
            let r = frame::channel_at(f, 3, 2);
            ||| (f[0] == 2 || f[0] == 4) && channel::plane_of(b, n) == ok(rb) && channel::plane_of(
                g,
                n,
            ) == ok(rg) && channel::plane_of(r, n) == ok(rr)
            ||| f[0] == 7 && channel::legacy_plane_of(b, n) == ok(rb) && channel::legacy_plane_of(
                g,
                n,
            ) == ok(rg) && channel::legacy_plane_of(r, n) == ok(rr)
        }),
    ensures
        ({
            let n = width as nat * height as nat;
            let w = width as int;
            let out = decoder::frame_pixels(f, width, height, PixelKind::Bgr24);
            &&& out is Ok
            &&& out->Ok_0.len() == 3 * n
            &&& forall|i: int|
                0 <= i < n ==> #[trigger] is_rgb_pixel(
                    out->Ok_0,
                    3,
                    rgb_plane(w, rb),
                    rgb_plane(w, rg),
                    rgb_plane(w, rr),
                    i,
                )
        }),
{
    let n = width as nat * height as nat;
    let w = width as int;
    let out = decoder::frame_pixels(f, width, height, PixelKind::Bgr24);
    if f[0] == 7 {
        reveal(decoder::legacy_rgb_pixels);
        reveal(decoder::legacy_residuals_of);
        channel::law_legacy_plane_len(frame::channel_at(f, 3, 0), n);
        channel::law_legacy_plane_len(frame::channel_at(f, 3, 1), n);
        channel::law_legacy_plane_len(frame::channel_at(f, 3, 2), n);
    } else {
        reveal(decoder::rgb_pixels);
        reveal(decoder::residuals_of);
        channel::law_plane_len(frame::channel_at(f, 3, 0), n);
        channel::law_plane_len(frame::channel_at(f, 3, 1), n);
        channel::law_plane_len(frame::channel_at(f, 3, 2), n);
    }
    assert(out == Ok::<Seq<u8>, Error>(
        decoder::rgb_buffer(PixelKind::Bgr24, w, rb, rg, rr, digits::repeat(0xff, n)),
    ));
    let m = Predictor::Median(FirstColRule::B);
    predict::lemma_rebuilt_len(m, w, rb, n);
    predict::lemma_rebuilt_len(m, w, rg, n);
    predict::lemma_rebuilt_len(m, w, rr, n);
    assert forall|i: int| 0 <= i < n implies #[trigger] is_rgb_pixel(
        out->Ok_0,
        3,
        rgb_plane(w, rb),
        rgb_plane(w, rg),
        rgb_plane(w, rr),
        i,
    ) by {
        predict::law_green_added(rgb_plane(w, rb), rgb_plane(w, rg), i);
        predict::law_green_added(rgb_plane(w, rr), rgb_plane(w, rg), i);
        assert((3 * i) / 3 == i && (3 * i + 1) / 3 == i && (3 * i + 2) / 3 == i);
        assert((3 * i) % 3 == 0 && (3 * i + 1) % 3 == 1 && (3 * i + 2) % 3 == 2);
    }
}

/// Frames of type 8 hold blue, green, red and alpha, in this order, as
/// planes under rule B, blue and red less green.
pub proof fn law_rgba_frame(
    f: Seq<u8>,
    width: u32,
    height: u32,
    rb: Seq<u8>,
    rg: Seq<u8>,
    rr: Seq<u8>,
    ra: Seq<u8>,
)
    requires
        f.len() > 0,
        f[0] == 8,
        width > 0,
        height > 0,
        frame::split_error(f, 4) is None,
        ({
            let n = width as nat * height as nat;
            let ok = |r: Seq<u8>| Ok::<Seq<u8>, Error>(r);
            &&& channel::plane_of(frame::channel_at(f, 4, 0), n) == ok(rb)
            &&& channel::plane_of(frame::channel_at(f, 4, 1), n) == ok(rg)
            &&& channel::plane_of(frame::channel_at(f, 4, 2), n) == ok(rr)
            &&& channel::plane_of(frame::channel_at(f, 4, 3), n) == ok(ra)
        }),
    ensures
        ({
            let n = width as nat * height as nat;
            let w = width as int;
            let three = decoder::frame_pixels(f, width, height, PixelKind::Bgr24);
            let four = decoder::frame_pixels(f, width, height, PixelKind::Bgra32);
            let b = rgb_plane(w, rb);
            let g = rgb_plane(w, rg);
            let r = rgb_plane(w, rr);
            &&& three is Ok
            &&& three->Ok_0.len() == 3 * n
            &&& four is Ok
            &&& four->Ok_0.len() == 4 * n
            &&& forall|i: int| 0 <= i < n ==> #[trigger] is_rgb_pixel(three->Ok_0, 3, b, g, r, i)
            &&& forall|i: int| 0 <= i < n ==> #[trigger] is_rgb_pixel(four->Ok_0, 4, b, g, r, i)
            &&& forall|i: int|
                0 <= i < n ==> four->Ok_0[4 * i + 3] == #[trigger] rgb_plane(w, ra)[i]
        }),
{
    let n = width as nat * height as nat;
    let w = width as int;
    let three = decoder::frame_pixels(f, width, height, PixelKind::Bgr24);
    let four = decoder::frame_pixels(f, width, height, PixelKind::Bgra32);
    reveal(decoder::rgba_pixels);
    reveal(decoder::residuals_of);
    channel::law_plane_len(frame::channel_at(f, 4, 0), n);
    channel::law_plane_len(frame::channel_at(f, 4, 1), n);
    channel::law_plane_len(frame::channel_at(f, 4, 2), n);
    channel::law_plane_len(frame::channel_at(f, 4, 3), n);
    let m = Predictor::Median(FirstColRule::B);
    predict::lemma_rebuilt_len(m, w, rb, n);
    predict::lemma_rebuilt_len(m, w, rg, n);
    predict::lemma_rebuilt_len(m, w, rr, n);
    predict::lemma_rebuilt_len(m, w, ra, n);
    let b = rgb_plane(w, rb);
    let g = rgb_plane(w, rg);
    let r = rgb_plane(w, rr);
    assert(three == Ok::<Seq<u8>, Error>(
        decoder::rgb_buffer(PixelKind::Bgr24, w, rb, rg, rr, Seq::empty()),
    ));
    assert(four == Ok::<Seq<u8>, Error>(
        decoder::rgb_buffer(PixelKind::Bgra32, w, rb, rg, rr, rgb_plane(w, ra)),
    ));
    assert forall|i: int| 0 <= i < n implies #[trigger] is_rgb_pixel(three->Ok_0, 3, b, g, r, i) by {
        predict::law_green_added(b, g, i);
        predict::law_green_added(r, g, i);
        assert((3 * i) / 3 == i && (3 * i + 1) / 3 == i && (3 * i + 2) / 3 == i);
        assert((3 * i) % 3 == 0 && (3 * i + 1) % 3 == 1 && (3 * i + 2) % 3 == 2);
    }
    assert forall|i: int| 0 <= i < n implies #[trigger] is_rgb_pixel(four->Ok_0, 4, b, g, r, i) by {
        predict::law_green_added(b, g, i);
        predict::law_green_added(r, g, i);
        assert((4 * i) / 4 == i && (4 * i + 1) / 4 == i && (4 * i + 2) / 4 == i);
        assert((4 * i) % 4 == 0 && (4 * i + 1) % 4 == 1 && (4 * i + 2) % 4 == 2);
    }
    assert forall|i: int| 0 <= i < n implies four->Ok_0[4 * i + 3] == #[trigger] rgb_plane(
        w,
        ra,
    )[i] by {
        assert((4 * i + 3) / 4 == i && (4 * i + 3) % 4 == 3);
    }
}

/// Frames of type 10 hold the planes Y, V and U, in this order, under the
/// YUV rule. The chroma planes have a quarter of the samples, in rows of
/// half the width or, where they do not make as many whole rows as half the
/// height, in one row.
pub proof fn law_planar_frame(
    f: Seq<u8>,
    width: u32,
    height: u32,
    ry: Seq<u8>,
    rv: Seq<u8>,
    ru: Seq<u8>,
)
    requires
        f.len() > 0,
        f[0] == 10,
        width > 0,
        height > 0,
        frame::split_error(f, 3) is None,
        ({
            let n = width as nat * height as nat;
            let ok = |r: Seq<u8>| Ok::<Seq<u8>, Error>(r);
            &&& channel::plane_of(frame::channel_at(f, 3, 0), n) == ok(ry)
            &&& channel::plane_of(frame::channel_at(f, 3, 1), n / 4) == ok(rv)
            &&& channel::plane_of(frame::channel_at(f, 3, 2), n / 4) == ok(ru)
        }),
    ensures
        ({
            let n = width as int * height as int;
            let c = n / 4;
            let row = if (width / 2) * (height / 2) == c {
                width as int / 2
            } else {
                c
            };
            let m = Predictor::Median(FirstColRule::Yuv);
            let out = decoder::frame_pixels(f, width, height, PixelKind::Yv12);
            &&& out is Ok
            &&& out->Ok_0.len() == n + 2 * c
            &&& out->Ok_0.subrange(0, n) == predict::rebuilt(m, width as int, ry)
            &&& out->Ok_0.subrange(n, n + c) == predict::rebuilt(m, row, rv)
            &&& out->Ok_0.subrange(n + c, n + 2 * c) == predict::rebuilt(m, row, ru)
        }),
{
    let n = width as nat * height as nat;
    let c = n / 4;
    let w = width as int;
    let m = Predictor::Median(FirstColRule::Yuv);
    let row = decoder::chroma_width(width as nat, height as nat) as int;
    reveal(decoder::yv12_pixels);
    reveal(decoder::residuals_of);
    channel::law_plane_len(frame::channel_at(f, 3, 0), n);
    channel::law_plane_len(frame::channel_at(f, 3, 1), c);
    channel::law_plane_len(frame::channel_at(f, 3, 2), c);
    predict::lemma_rebuilt_len(m, w, ry, n);
    predict::lemma_rebuilt_len(m, row, rv, c);
    predict::lemma_rebuilt_len(m, row, ru, c);
    let y = predict::rebuilt(m, w, ry);
    let v = predict::rebuilt(m, row, rv);
    let u = predict::rebuilt(m, row, ru);
    let out = decoder::frame_pixels(f, width, height, PixelKind::Yv12)->Ok_0;
    assert(out == y + v + u);
    assert(out.subrange(0, n as int) =~= y);
    assert(out.subrange(n as int, (n + c) as int) =~= v);
    assert(out.subrange((n + c) as int, (n + 2 * c) as int) =~= u);
}

/// A pair of pixels of a packed buffer: luma, U, luma, V. The two share a
/// sample of each chroma plane.
pub open spec fn is_pixel_pair(
    px: Seq<u8>,
    w: int,
    y: Seq<u8>,
    u: Seq<u8>,
    v: Seq<u8>,
    row: int,
    pair: int,
) -> bool {
    let at = row * w + 2 * pair;
    let chroma = row * (w / 2) + pair;
    &&& px[2 * at] == y[at]
    &&& px[2 * at + 1] == u[chroma]
    &&& px[2 * at + 2] == y[at + 1]
    &&& px[2 * at + 3] == v[chroma]
}

/// Frames of type 3 hold the planes Y, U and V, in this order, under the
/// packed predictors, and decode to pairs of pixels. The last pixel of a row
/// of odd width has neutral chroma.
pub proof fn law_packed_frame(
    f: Seq<u8>,
    width: u32,
    height: u32,
    ry: Seq<u8>,
    ru: Seq<u8>,
    rv: Seq<u8>,
    row: int,
    pair: int,
)
    requires
        f.len() > 0,
        f[0] == 3,
        frame::split_error(f, 3) is None,
        0 <= row < height,
        0 <= pair,
        2 * pair < width,
        ({
            let n = width as nat * height as nat;
            let c = (width as nat / 2) * height as nat;
            let ok = |r: Seq<u8>| Ok::<Seq<u8>, Error>(r);
            &&& channel::plane_of(frame::channel_at(f, 3, 0), n) == ok(ry)
            &&& channel::plane_of(frame::channel_at(f, 3, 1), c) == ok(ru)
            &&& channel::plane_of(frame::channel_at(f, 3, 2), c) == ok(rv)
        }),
    ensures
        ({
            let w = width as int;
            let y = predict::rebuilt(Predictor::Packed { luma: true }, w, ry);
            let u = predict::rebuilt(Predictor::Packed { luma: false }, w / 2, ru);
            let v = predict::rebuilt(Predictor::Packed { luma: false }, w / 2, rv);
            let out = decoder::frame_pixels(f, width, height, PixelKind::Yuy2);
            &&& out is Ok
            &&& out->Ok_0.len() == 2 * (w * height)
            &&& 2 * pair + 1 < w ==> is_pixel_pair(out->Ok_0, w, y, u, v, row, pair)
            &&& 2 * pair + 1 == w ==> out->Ok_0[2 * (row * w + 2 * pair)] == y[row * w + 2 * pair]
                && out->Ok_0[2 * (row * w + 2 * pair) + 1] == 0x80
        }),
{
    let n = width as nat * height as nat;
    let c = (width as nat / 2) * height as nat;
    let w = width as int;
    let luma = Predictor::Packed { luma: true };
    let chroma = Predictor::Packed { luma: false };
    reveal(decoder::yuy2_pixels);
    reveal(decoder::residuals_of);
    channel::law_plane_len(frame::channel_at(f, 3, 0), n);
    channel::law_plane_len(frame::channel_at(f, 3, 1), c);
    channel::law_plane_len(frame::channel_at(f, 3, 2), c);
    predict::lemma_rebuilt_len(luma, w, ry, n);
    predict::lemma_rebuilt_len(chroma, w / 2, ru, c);
    predict::lemma_rebuilt_len(chroma, w / 2, rv, c);
    let at = row * w + 2 * pair;
    predict::lemma_position(at, w, row, 2 * pair);
    assert(0 <= at && at < w * height) by (nonlinear_arith)
        requires
            at == row * w + 2 * pair,
            0 <= row,
            row + 1 <= height,
            0 <= 2 * pair < w,
    ;
    assert((2 * at) / 2 == at && (2 * at + 1) / 2 == at);
    if 2 * pair + 1 < w {
        predict::lemma_position(at + 1, w, row, 2 * pair + 1);
        assert(at + 1 < w * height) by (nonlinear_arith)
            requires
                at == row * w + 2 * pair,
                0 <= row,
                row + 1 <= height,
                0 <= 2 * pair + 1 < w,
        ;
        assert((2 * at + 2) / 2 == at + 1 && (2 * at + 3) / 2 == at + 1);
        assert((2 * pair) / 2 == pair && (2 * pair + 1) / 2 == pair);
    }
}

} // verus!
