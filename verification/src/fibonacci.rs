//! Fibonacci-coded frequency tables.
//!
//! A table of 256 frequencies is written as a bit string. A number `v >= 1`
//! is coded as its magnitude `m = floor(log2(v))`, written as the Fibonacci
//! code of `m + 1`, followed by the `m` low bits of `v`. A frequency `f > 0`
//! is the code of `f + 1`. A run of zero frequencies is the Fibonacci code of
//! 1 followed by the code of its length.

use crate::bits;
use crate::error::{Error, Result};
use vstd::arithmetic::power2::pow2;
use vstd::prelude::*;

verus! {

/// The Fibonacci numbers that the codes of this format can use.
pub const FIB: [u32; 7] = [1, 2, 3, 5, 8, 13, 21];

// ---------------------------------------------------------------------
// Fibonacci codes
// ---------------------------------------------------------------------

/// The Fibonacci numbers from 1, 2 on.
pub open spec fn fib(k: nat) -> nat
    decreases k,
{
    if k == 0 {
        1
    } else if k == 1 {
        2
    } else {
        fib((k - 1) as nat) + fib((k - 2) as nat)
    }
}

/// The sum of the Fibonacci numbers that `code` selects.
pub open spec fn fib_sum(code: Seq<bool>) -> nat
    decreases code.len(),
{
    if code.len() == 0 {
        0
    } else {
        fib_sum(code.drop_last()) + if code.last() {
            fib((code.len() - 1) as nat)
        } else {
            0
        }
    }
}

/// The Zeckendorf representation of `n` over the first `k` Fibonacci
/// numbers, smallest first.
pub open spec fn zeckendorf(k: nat, n: nat) -> Seq<bool>
    decreases k,
{
    if k == 0 {
        Seq::empty()
    } else if fib((k - 1) as nat) <= n {
        zeckendorf((k - 1) as nat, (n - fib((k - 1) as nat)) as nat).push(true)
    } else {
        zeckendorf((k - 1) as nat, n).push(false)
    }
}

/// How many Fibonacci numbers the representation of `n` needs.
pub open spec fn fib_width(k: nat, n: nat) -> nat
    decreases k,
{
    if k == 0 || fib((k - 1) as nat) <= n {
        k
    } else {
        fib_width((k - 1) as nat, n)
    }
}

/// The Fibonacci code of `n >= 1`: its representation, closed by a second
/// one.
pub open spec fn fib_code(n: nat) -> Seq<bool> {
    zeckendorf(fib_width(9, n), n).push(true)
}

/// What a Fibonacci code that starts at `p` stands for, and where it ends.
/// The code uses at most `limit` Fibonacci numbers. `pos`, `value` and `prev`
/// describe the part before `p`.
pub open spec fn read_code(
    limit: nat,
    src: Seq<bool>,
    p: int,
    pos: nat,
    value: nat,
    prev: bool,
) -> Result<(nat, int)>
    decreases src.len() - p,
{
    if p < 0 || p >= src.len() {
        Err(Error::Truncated { context: "Fibonacci prefix bit stream" })
    } else if prev && src[p] {
        Ok((value, p + 1))
    } else if src[p] && pos >= limit {
        Err(Error::FibonacciOverflow)
    } else if pos > limit {
        Err(Error::FibonacciOverflow)
    } else {
        read_code(
            limit,
            src,
            p + 1,
            pos + 1,
            value + if src[p] {
                fib(pos)
            } else {
                0
            },
            src[p],
        )
    }
}

/// What the Fibonacci code at `p` stands for, and where it ends.
pub open spec fn read_fib_code(limit: nat, src: Seq<bool>, p: int) -> Result<(nat, int)> {
    read_code(limit, src, p, 0, 0, false)
}

pub proof fn lemma_fib_values()
    ensures
        fib(0) == 1,
        fib(1) == 2,
        fib(2) == 3,
        fib(3) == 5,
        fib(4) == 8,
        fib(5) == 13,
        fib(6) == 21,
        fib(7) == 34,
        fib(8) == 55,
        fib(9) == 89,
{
    assert(fib(0) == 1);
    assert(fib(1) == 2);
    assert(fib(2) == 3);
    assert(fib(3) == 5);
    assert(fib(4) == 8);
    assert(fib(5) == 13);
    assert(fib(6) == 21);
    assert(fib(7) == 34);
    assert(fib(8) == 55);
    assert(fib(9) == 89);
}

pub proof fn lemma_zeckendorf_len(k: nat, n: nat)
    ensures
        zeckendorf(k, n).len() == k,
    decreases k,
{
    if k > 0 {
        if fib((k - 1) as nat) <= n {
            lemma_zeckendorf_len((k - 1) as nat, (n - fib((k - 1) as nat)) as nat);
        } else {
            lemma_zeckendorf_len((k - 1) as nat, n);
        }
    }
}

/// The representation sums to `n`, and no two neighbours are both used.
pub proof fn lemma_zeckendorf(k: nat, n: nat)
    requires
        n < fib(k),
    ensures
        zeckendorf(k, n).len() == k,
        fib_sum(zeckendorf(k, n)) == n,
        forall|i: int|
            0 < i < k ==> !(#[trigger] zeckendorf(k, n)[i] && zeckendorf(k, n)[i - 1]),
    decreases k,
{
    lemma_zeckendorf_len(k, n);
    if k > 0 {
        let f = fib((k - 1) as nat);
        let top = f <= n;
        let rest = if top {
            (n - f) as nat
        } else {
            n
        };
        if top {
            if k == 1 {
                assert(n == 1);
            } else {
                assert(rest < fib((k - 2) as nat));
                if k >= 3 {
                    assert(fib((k - 1) as nat) >= fib((k - 2) as nat));
                } else {
                    lemma_fib_values();
                }
            }
        }
        lemma_zeckendorf((k - 1) as nat, rest);
        let z = zeckendorf((k - 1) as nat, rest);
        let full = zeckendorf(k, n);
        assert(full.drop_last() =~= z);
        assert forall|i: int| 0 < i < k implies !(#[trigger] full[i] && full[i - 1]) by {
            if i == k - 1 {
                if top {
                    assert(rest < fib((k - 2) as nat));
                    assert(full[i - 1] == z.last());
                }
            } else {
                assert(full[i] == z[i] && full[i - 1] == z[i - 1]);
            }
        }
    }
}

/// The last bit of a minimal representation is set.
pub proof fn lemma_fib_width(k: nat, n: nat)
    requires
        1 <= n < fib(k),
    ensures
        1 <= fib_width(k, n) <= k,
        n < fib(fib_width(k, n)),
        fib((fib_width(k, n) - 1) as nat) <= n,
    decreases k,
{
    if k == 0 {
        assert(fib(0) == 1);
    } else if fib((k - 1) as nat) <= n {
    } else {
        lemma_fib_width((k - 1) as nat, n);
    }
}

/// Reading a Fibonacci code gives back its number.
pub proof fn lemma_read_fib_code(limit: nat, src: Seq<bool>, p: int, n: nat)
    requires
        1 <= n < fib(limit),
        limit <= 9,
        bits::code_at(src, p, fib_code(n)),
    ensures
        read_fib_code(limit, src, p) == Ok::<(nat, int), Error>((n, p + fib_code(n).len())),
        2 <= fib_code(n).len() <= limit + 1,
{
    lemma_fib_values();
    lemma_fib_increases(limit, 9);
    lemma_fib_width(9, n);
    let w = fib_width(9, n);
    if w > limit {
        lemma_fib_increases(limit, (w - 1) as nat);
    }
    lemma_zeckendorf(w, n);
    let z = zeckendorf(w, n);
    lemma_read_code_steps(limit, src, p, z, w);
    assert(z.take(w as int) =~= z);
    assert(fib_code(n)[w as int] == true);
    assert(src[p + w]);
    assert(z[w - 1]);
}

proof fn lemma_read_code_steps(limit: nat, src: Seq<bool>, p: int, z: Seq<bool>, i: nat)
    requires
        i <= z.len() <= limit,
        bits::code_at(src, p, z.push(true)),
        forall|j: int| 0 < j < z.len() ==> !(#[trigger] z[j] && z[j - 1]),
    ensures
        read_code(limit, src, p, 0, 0, false) == read_code(
            limit,
            src,
            p + i,
            i,
            fib_sum(z.take(i as int)),
            i > 0 && z[i - 1],
        ),
    decreases i,
{
    if i == 0 {
        assert(z.take(0) =~= Seq::empty());
    } else {
        let j = (i - 1) as nat;
        lemma_read_code_steps(limit, src, p, z, j);
        assert(z.push(true)[j as int] == z[j as int]);
        assert(src[p + j] == z[j as int]);
        assert(z.take(i as int).drop_last() =~= z.take(j as int));
        assert(z.take(i as int).last() == z[j as int]);
        if j > 0 {
            assert(!(z[j as int] && z[j - 1]));
        }
    }
}

pub proof fn lemma_fib_increases(a: nat, b: nat)
    requires
        a <= b,
    ensures
        1 <= fib(a) <= fib(b),
    decreases b,
{
    if a < b {
        lemma_fib_increases(a, (b - 1) as nat);
        if b >= 2 {
            lemma_fib_increases(0, (b - 2) as nat);
        }
    } else if b >= 2 {
        lemma_fib_increases((b - 1) as nat, (b - 1) as nat);
        lemma_fib_increases((b - 2) as nat, (b - 2) as nat);
    }
}

/// A code that was read ends later than it starts, stands for at least 1,
/// and for no more than its Fibonacci numbers allow.
pub proof fn lemma_read_code_bounds(
    limit: nat,
    src: Seq<bool>,
    p: int,
    pos: nat,
    value: nat,
    prev: bool,
)
    requires
        prev ==> 1 <= pos <= limit,
        pos <= limit + 1,
        if prev {
            fib((pos - 1) as nat) <= value < fib(pos)
        } else {
            value < fib(if pos == 0 {
                0
            } else {
                (pos - 1) as nat
            })
        },
    ensures
        match read_code(limit, src, p, pos, value, prev) {
            Ok((v, q)) => p < q <= src.len() && 1 <= v < fib(limit),
            Err(_) => true,
        },
    decreases src.len() - p,
{
    if 0 <= p < src.len() && !(prev && src[p]) && !(src[p] && pos >= limit) && pos <= limit {
        let value2 = value + if src[p] {
            fib(pos)
        } else {
            0
        };
        if src[p] {
            if pos == 0 {
                lemma_fib_values();
            } else {
                if pos == 1 {
                    lemma_fib_values();
                } else {
                    assert(fib(pos + 1) == fib(pos) + fib((pos - 1) as nat));
                }
                lemma_fib_increases((pos - 1) as nat, pos);
            }
        } else {
            if !prev && pos > 0 {
                lemma_fib_increases((pos - 1) as nat, pos);
            }
        }
        assert(pos + 1 - 1 == pos);
        lemma_read_code_bounds(limit, src, p + 1, pos + 1, value2, src[p]);
    } else if 0 <= p < src.len() && prev && src[p] {
        lemma_fib_increases(0, (pos - 1) as nat);
        lemma_fib_increases(pos, limit);
    }
}

// ---------------------------------------------------------------------
// Numbers
// ---------------------------------------------------------------------

/// `floor(log2(v))` for `v >= 1`.
pub open spec fn magnitude(v: nat) -> nat
    decreases v,
{
    if v <= 1 {
        0
    } else {
        1 + magnitude(v / 2)
    }
}

/// The `m` low bits of `v`, most significant first.
pub open spec fn low_bits(v: nat, m: nat) -> Seq<bool>
    decreases m,
{
    if m == 0 {
        Seq::empty()
    } else {
        low_bits(v / 2, (m - 1) as nat).push(v % 2 == 1)
    }
}

/// The number that a one followed by the bits `s` spells.
pub open spec fn spelled(s: Seq<bool>) -> nat
    decreases s.len(),
{
    if s.len() == 0 {
        1
    } else {
        2 * spelled(s.drop_last()) + if s.last() {
            1nat
        } else {
            0nat
        }
    }
}

/// The code of a number `v >= 1`: its magnitude, then its low bits.
pub open spec fn number_code(v: nat) -> Seq<bool> {
    fib_code(magnitude(v) + 1) + low_bits(v, magnitude(v))
}

/// The number spelled by a one and the `m` bits from `p` on. `None` where
/// the stream ends before them.
pub open spec fn read_suffix(src: Seq<bool>, p: int, m: nat) -> Option<nat> {
    if 0 <= p && p + m <= src.len() {
        Some(spelled(src.subrange(p, p + m)))
    } else {
        None
    }
}

pub proof fn lemma_magnitude(v: nat)
    requires
        v >= 1,
    ensures
        pow2(magnitude(v)) <= v < pow2(magnitude(v) + 1),
    decreases v,
{
    if v == 1 {
        vstd::arithmetic::power2::lemma2_to64();
    } else {
        lemma_magnitude(v / 2);
        vstd::arithmetic::power2::lemma_pow2_unfold(magnitude(v));
        vstd::arithmetic::power2::lemma_pow2_unfold(magnitude(v) + 1);
    }
}

pub proof fn lemma_magnitude_bound(v: nat, k: nat)
    requires
        1 <= v < pow2(k),
    ensures
        magnitude(v) < k,
{
    lemma_magnitude(v);
    if magnitude(v) >= k {
        if magnitude(v) > k {
            vstd::arithmetic::power2::lemma_pow2_strictly_increases(k, magnitude(v));
        }
    }
}

pub proof fn lemma_low_bits(v: nat, m: nat)
    ensures
        low_bits(v, m).len() == m,
    decreases m,
{
    if m > 0 {
        lemma_low_bits(v / 2, (m - 1) as nat);
    }
}

/// The leading one and the low bits spell the number.
pub proof fn lemma_spelled_low_bits(v: nat)
    requires
        v >= 1,
    ensures
        spelled(low_bits(v, magnitude(v))) == v,
    decreases v,
{
    if v > 1 {
        lemma_spelled_low_bits(v / 2);
        let s = low_bits(v, magnitude(v));
        assert(s.drop_last() =~= low_bits(v / 2, magnitude(v / 2)));
    }
}

pub proof fn lemma_spelled_bound(s: Seq<bool>)
    ensures
        pow2(s.len()) <= spelled(s) < pow2(s.len() + 1),
    decreases s.len(),
{
    vstd::arithmetic::power2::lemma_pow2_unfold(s.len() + 1);
    if s.len() == 0 {
        vstd::arithmetic::power2::lemma2_to64();
    } else {
        vstd::arithmetic::power2::lemma_pow2_unfold(s.len());
        lemma_spelled_bound(s.drop_last());
    }
}

/// Reading the code of a number gives its magnitude, then the number.
pub proof fn lemma_read_number(limit: nat, src: Seq<bool>, p: int, v: nat)
    requires
        7 <= limit <= 8,
        1 <= v < 0x1_0000_0000,
        bits::code_at(src, p, number_code(v)),
    ensures
        read_fib_code(limit, src, p) == Ok::<(nat, int), Error>(
            (magnitude(v) + 1, p + fib_code(magnitude(v) + 1).len()),
        ),
        read_suffix(src, p + fib_code(magnitude(v) + 1).len(), magnitude(v)) == Some(v),
        number_code(v).len() == fib_code(magnitude(v) + 1).len() + magnitude(v),
        magnitude(v) <= 31,
        (magnitude(v) == 0) == (v == 1),
{
    let m = magnitude(v);
    vstd::arithmetic::power2::lemma2_to64();
    lemma_magnitude_bound(v, 32);
    lemma_fib_values();
    lemma_low_bits(v, m);
    bits::lemma_code_split(src, p, fib_code(m + 1), low_bits(v, m));
    lemma_read_fib_code(limit, src, p, m + 1);
    let q = p + fib_code(m + 1).len();
    assert(src.subrange(q, q + m) =~= low_bits(v, m));
    lemma_spelled_low_bits(v);
}

// ---------------------------------------------------------------------
// Bit reader
// ---------------------------------------------------------------------

/// Reads bits from a byte string, most significant first.
pub struct BitReader<'a> {
    /// The byte string.
    pub src: &'a [u8],
    /// Index of the byte that holds the next bit.
    pub byte: usize,
    /// The next bit, as a mask on that byte.
    pub mask: u8,
}

/// How many bits of a byte come before the one that `mask` selects.
pub open spec fn mask_index(mask: u8) -> int {
    if mask == 128 {
        0
    } else if mask == 64 {
        1
    } else if mask == 32 {
        2
    } else if mask == 16 {
        3
    } else if mask == 8 {
        4
    } else if mask == 4 {
        5
    } else if mask == 2 {
        6
    } else {
        7
    }
}

/// `mask` selects one bit.
pub open spec fn is_mask(mask: u8) -> bool {
    mask == 128 || mask == 64 || mask == 32 || mask == 16 || mask == 8 || mask == 4 || mask == 2
        || mask == 1
}

/// The bit that `mask` selects and all bits after it are zero in `cur`.
pub open spec fn low_clear(cur: u8, mask: u8) -> bool {
    if mask == 128 {
        cur == 0
    } else if mask == 64 {
        cur % 128 == 0
    } else if mask == 32 {
        cur % 64 == 0
    } else if mask == 16 {
        cur % 32 == 0
    } else if mask == 8 {
        cur % 16 == 0
    } else if mask == 4 {
        cur % 8 == 0
    } else if mask == 2 {
        cur % 4 == 0
    } else {
        cur % 2 == 0
    }
}

impl<'a> BitReader<'a> {
    /// The bits of the byte string.
    pub open spec fn bits(&self) -> Seq<bool> {
        bits::unpack(self.src@)
    }

    /// How many bits have been read.
    pub open spec fn position(&self) -> int {
        8 * self.byte + mask_index(self.mask)
    }

    /// The position is within the byte string.
    pub open spec fn wf(&self) -> bool {
        is_mask(self.mask) && self.position() <= self.bits().len()
    }

    /// Start at the first bit.
    pub fn new(src: &'a [u8]) -> (r: Self)
        ensures
            r.wf(),
            r.src@ == src@,
            r.position() == 0,
    {
        BitReader { src, byte: 0, mask: 0x80 }
    }

    /// How many bytes have been touched.
    pub fn bytes_consumed(&self) -> (r: usize)
        requires
            self.wf(),
        ensures
            r == bits::bytes_for(self.position() as nat),
    {
        if self.mask == 0x80 {
            self.byte
        } else {
            assert(self.byte < self.src.len());
            self.byte + 1
        }
    }

    /// Whether the next bit is the first of its byte.
    pub fn is_byte_aligned(&self) -> (r: bool)
        requires
            self.wf(),
        ensures
            r == (self.position() % 8 == 0),
    {
        self.mask == 0x80
    }

    /// Read one bit.
    pub fn read_bit(&mut self) -> (r: Result<u8>)
        requires
            old(self).wf(),
        ensures
            final(self).wf(),
            final(self).src == old(self).src,
            match r {
                Ok(b) => {
                    &&& old(self).position() < old(self).bits().len()
                    &&& b == if old(self).bits()[old(self).position()] {
                        1u8
                    } else {
                        0u8
                    }
                    &&& final(self).position() == old(self).position() + 1
                },
                Err(e) => {
                    &&& old(self).position() == old(self).bits().len()
                    &&& e == (Error::Truncated { context: "Fibonacci prefix bit stream" })
                    &&& final(self).position() == old(self).position()
                },
            },
    {
        if self.byte >= self.src.len() {
            return Err(Error::Truncated { context: "Fibonacci prefix bit stream" });
        }
        let b: u8 = (self.src[self.byte] / self.mask) % 2;
        proof {
            let p = self.position();
            assert(p / 8 == self.byte && p % 8 == mask_index(self.mask));
            assert(bits::weight(p % 8) == self.mask);
        }
        self.mask = self.mask / 2;
        if self.mask == 0 {
            self.mask = 0x80;
            self.byte = self.byte + 1;
        }
        Ok(b)
    }

    /// Read one Fibonacci code over the numbers of `series`.
    pub fn read_series(&mut self, series: &[u32]) -> (r: Result<u32>)
        requires
            old(self).wf(),
            7 <= series@.len() <= 8,
            forall|k: int| 0 <= k < series@.len() ==> #[trigger] series@[k] == fib(k as nat),
        ensures
            final(self).wf(),
            final(self).src == old(self).src,
            match read_fib_code(series@.len(), old(self).bits(), old(self).position()) {
                Ok((v, p)) => r == Ok::<u32, Error>(v as u32) && final(self).position() == p && 1
                    <= v < fib(series@.len()),
                Err(e) => r == Err::<u32, Error>(e),
            },
    {
        let mut v: u32 = 0;
        let mut prev: u8 = 0;
        let mut pos: usize = 0;
        let ghost limit = series@.len();
        let ghost src = self.bits();
        let ghost start = self.position();
        proof {
            lemma_fib_values();
            lemma_read_code_bounds(limit, src, start, 0, 0, false);
        }
        loop
            invariant
                self.wf(),
                self.src == old(self).src,
                src == self.bits(),
                start == old(self).position(),
                src == old(self).bits(),
                limit == series@.len(),
                7 <= limit <= 8,
                pos <= limit + 1,
                prev <= 1,
                prev == 1 ==> 1 <= pos <= limit,
                v <= 54 * pos,
                forall|k: int| 0 <= k < series@.len() ==> #[trigger] series@[k] == fib(k as nat),
                read_fib_code(limit, src, start) == read_code(
                    limit,
                    src,
                    self.position(),
                    pos as nat,
                    v as nat,
                    prev == 1,
                ),
                match read_fib_code(limit, src, start) {
                    Ok((w, p)) => 1 <= w < fib(limit),
                    Err(_) => true,
                },
            decreases limit + 2 - pos,
        {
            let cur: u8 = match self.read_bit() {
                Ok(b) => b,
                Err(e) => {
                    return Err(e);
                },
            };
            if prev == 1 && cur == 1 {
                return Ok(v);
            }
            if cur == 1 {
                if pos >= series.len() {
                    return Err(Error::FibonacciOverflow);
                }
                proof {
                    lemma_fib_values();
                }
                v = v + series[pos];
            }
            prev = cur;
            pos = pos + 1;
            if pos > series.len() + 1 {
                return Err(Error::FibonacciOverflow);
            }
        }
    }

    /// Read one Fibonacci code over [`FIB`].
    pub fn read_fib(&mut self) -> (r: Result<u32>)
        requires
            old(self).wf(),
        ensures
            final(self).wf(),
            final(self).src == old(self).src,
            match read_fib_code(7, old(self).bits(), old(self).position()) {
                Ok((v, p)) => r == Ok::<u32, Error>(v as u32) && final(self).position() == p && 1
                    <= v <= 33,
                Err(e) => r == Err::<u32, Error>(e),
            },
    {
        proof {
            lemma_fib_values();
        }
        let series: [u32; 7] = FIB;
        self.read_series(series.as_slice())
    }

    /// Read `m` bits as the number that a one and these bits spell, modulo
    /// `2^32`.
    pub fn read_spelled(&mut self, m: u32) -> (r: Result<u32>)
        requires
            old(self).wf(),
        ensures
            final(self).wf(),
            final(self).src == old(self).src,
            match read_suffix(old(self).bits(), old(self).position(), m as nat) {
                Some(x) => r == Ok::<u32, Error>((x % 0x1_0000_0000) as u32)
                    && final(self).position() == old(self).position() + m,
                None => r == Err::<u32, Error>(
                    Error::Truncated { context: "Fibonacci prefix bit stream" },
                ),
            },
    {
        let ghost src = self.bits();
        let ghost start = self.position();
        let mut acc: u32 = 1;
        let mut i: u32 = 0;
        assert(src.subrange(start, start) =~= Seq::empty());
        while i < m
            invariant
                i <= m,
                self.wf(),
                self.src == old(self).src,
                src == self.bits(),
                src == old(self).bits(),
                start == old(self).position(),
                0 <= start,
                self.position() == start + i,
                start + i <= src.len(),
                acc == spelled(src.subrange(start, start + i)) % 0x1_0000_0000,
            decreases m - i,
        {
            let bit: u8 = match self.read_bit() {
                Ok(b) => b,
                Err(e) => {
                    return Err(e);
                },
            };
            proof {
                assert(src.subrange(start, start + i + 1).drop_last() =~= src.subrange(
                    start,
                    start + i,
                ));
            }
            acc = (acc % 0x8000_0000) * 2 + bit as u32;
            i = i + 1;
        }
        Ok(acc)
    }
}

// ---------------------------------------------------------------------
// Bit writer
// ---------------------------------------------------------------------

/// Collects bits into a byte string, most significant first.
pub struct BitWriter {
    /// The complete bytes.
    pub buf: Vec<u8>,
    /// The bits of the byte in progress.
    pub cur: u8,
    /// Where the next bit goes in that byte.
    pub mask: u8,
}

impl View for BitWriter {
    type V = Seq<bool>;

    open spec fn view(&self) -> Seq<bool> {
        bits::unpack(self.buf@) + Seq::new(
            mask_index(self.mask) as nat,
            |k: int| bits::bit_of(self.cur, k),
        )
    }
}

impl BitWriter {
    /// The bits still to be written are zero.
    pub open spec fn wf(&self) -> bool {
        is_mask(self.mask) && low_clear(self.cur, self.mask)
    }

    /// A writer that holds no bits.
    pub fn new() -> (r: Self)
        ensures
            r.wf(),
            r@ == Seq::<bool>::empty(),
    {
        let r = BitWriter { buf: Vec::new(), cur: 0, mask: 0x80 };
        assert(r@ =~= Seq::<bool>::empty());
        r
    }

    /// Append one bit.
    pub fn write_bit(&mut self, b: u8)
        requires
            old(self).wf(),
        ensures
            final(self).wf(),
            final(self)@ == old(self)@.push(b != 0),
    {
        let ghost mask0 = self.mask;
        let ghost cur0 = self.cur;
        let ghost whole = bits::unpack(self.buf@);
        let ghost cur1 = if b != 0 {
            (cur0 + mask0) as u8
        } else {
            cur0
        };
        let ghost part = Seq::new(
            mask_index(mask0) as nat + 1,
            |k: int| bits::bit_of(cur1, k),
        );
        proof {
            lemma_write(cur0, mask0, b != 0);
            assert(whole + part =~= self@.push(b != 0));
        }
        if b != 0 {
            self.cur = self.cur + self.mask;
        }
        self.mask = self.mask / 2;
        if self.mask == 0 {
            self.buf.push(self.cur);
            self.cur = 0;
            self.mask = 0x80;
            proof {
                let last = seq![cur1];
                assert(self.buf@ =~= old(self).buf@ + last);
                bits::lemma_unpack_append(old(self).buf@, last);
                assert(bits::unpack(last) =~= part);
                assert(self@ =~= whole + part);
            }
        } else {
            assert(self@ =~= whole + part);
        }
    }

    /// Whether the next bit starts a byte.
    pub fn is_byte_aligned(&self) -> (r: bool)
        requires
            self.wf(),
        ensures
            r == (self@.len() % 8 == 0),
    {
        self.mask == 0x80
    }

    /// The bytes, the last one filled up with zeros.
    pub fn finish(self) -> (r: Vec<u8>)
        requires
            self.wf(),
        ensures
            r@ == bits::pack(self@),
    {
        let mut buf = self.buf;
        if self.mask != 0x80 {
            buf.push(self.cur);
        }
        proof {
            let v = self@;
            let n = self.buf@.len();
            assert(bits::pack(v).len() == buf@.len());
            assert forall|i: int| 0 <= i < buf@.len() implies bits::pack(v)[i] == buf@[i] by {
                if i < n {
                    assert forall|k: int| 0 <= k < 8 implies bits::bit_of(buf@[i], k) == (
                    #[trigger] bits::bit_value(v, 8 * i + k) == 1) by {
                        assert((8 * i + k) / 8 == i && (8 * i + k) % 8 == k);
                    }
                } else {
                    assert forall|k: int| 0 <= k < 8 implies bits::bit_of(buf@[i], k) == (
                    #[trigger] bits::bit_value(v, 8 * i + k) == 1) by {
                        if k >= mask_index(self.mask) {
                            lemma_bit_clear(self.cur, self.mask, k);
                        }
                    }
                }
                bits::lemma_byte_from_bits(buf@[i], v, i);
            }
            assert(bits::pack(v) =~= buf@);
        }
        buf
    }
}

proof fn lemma_bit_kept(cur0: u8, cur1: u8, mask: u8, k: int)
    requires
        is_mask(mask),
        low_clear(cur0, mask),
        cur1 == cur0 || cur1 == cur0 + mask,
        0 <= k < mask_index(mask),
    ensures
        bits::bit_of(cur1, k) == bits::bit_of(cur0, k),
{
    if mask == 64 {
    } else if mask == 32 {
    } else if mask == 16 {
    } else if mask == 8 {
    } else if mask == 4 {
    } else if mask == 2 {
    } else {
    }
}

/// What one bit does to the byte in progress.
proof fn lemma_write(cur: u8, mask: u8, set: bool)
    requires
        is_mask(mask),
        low_clear(cur, mask),
    ensures
        ({
            let next = if set {
                cur + mask
            } else {
                cur as int
            };
            &&& next <= 255
            &&& forall|k: int|
                0 <= k < mask_index(mask) ==> #[trigger] bits::bit_of(next as u8, k)
                    == bits::bit_of(cur, k)
            &&& bits::bit_of(next as u8, mask_index(mask)) == set
            &&& mask > 1 ==> is_mask(mask / 2) && low_clear(next as u8, mask / 2) && mask_index(
                mask / 2,
            ) == mask_index(mask) + 1
            &&& mask == 1 ==> mask_index(mask) == 7 && mask / 2 == 0
        }),
{
    let next = (if set {
        cur + mask
    } else {
        cur as int
    }) as u8;
    if mask == 128 {
    } else if mask == 64 {
    } else if mask == 32 {
    } else if mask == 16 {
    } else if mask == 8 {
    } else if mask == 4 {
    } else if mask == 2 {
    } else {
    }
    assert forall|k: int| 0 <= k < mask_index(mask) implies #[trigger] bits::bit_of(next, k)
        == bits::bit_of(cur, k) by {
        lemma_bit_kept(cur, next, mask, k);
    }
}

proof fn lemma_bit_clear(cur: u8, mask: u8, k: int)
    requires
        is_mask(mask),
        low_clear(cur, mask),
        mask_index(mask) <= k < 8,
    ensures
        !bits::bit_of(cur, k),
{
    if mask == 128 {
    } else if mask == 64 {
    } else if mask == 32 {
    } else if mask == 16 {
    } else if mask == 8 {
    } else if mask == 4 {
    } else if mask == 2 {
    } else {
    }
}

// ---------------------------------------------------------------------
// Writing numbers
// ---------------------------------------------------------------------

/// Where the representation of `n` ends, the rest of a longer one is zero.
pub proof fn lemma_zeckendorf_trim(k: nat, n: nat)
    requires
        1 <= n < fib(k),
    ensures
        ({
            let w = fib_width(k, n);
            &&& zeckendorf(k, n).len() == k
            &&& zeckendorf(k, n).take(w as int) == zeckendorf(w, n)
            &&& zeckendorf(k, n)[w - 1]
            &&& forall|i: int| w <= i < k ==> !#[trigger] zeckendorf(k, n)[i]
        }),
    decreases k,
{
    lemma_fib_width(k, n);
    lemma_zeckendorf_len(k, n);
    if fib((k - 1) as nat) <= n {
        assert(zeckendorf(k, n).take(k as int) =~= zeckendorf(k, n));
    } else {
        lemma_zeckendorf_trim((k - 1) as nat, n);
        let z = zeckendorf((k - 1) as nat, n);
        let w = fib_width(k, n);
        assert(zeckendorf(k, n).take(w as int) =~= z.take(w as int));
        assert forall|i: int| w <= i < k implies !#[trigger] zeckendorf(k, n)[i] by {
            if i < k - 1 {
                assert(!z[i]);
            }
        }
    }
}

/// A width that suffices does not depend on how many numbers are offered.
pub proof fn lemma_fib_width_stable(k: nat, l: nat, n: nat)
    requires
        k <= l,
        1 <= n < fib(k),
    ensures
        fib_width(l, n) == fib_width(k, n),
    decreases l,
{
    if l > k {
        lemma_fib_increases(k, (l - 1) as nat);
        lemma_fib_width_stable(k, (l - 1) as nat, n);
    }
}

/// Append the Fibonacci code of `value`.
pub fn write_fib(w: &mut BitWriter, value: u32)
    requires
        old(w).wf(),
        1 <= value <= 33,
    ensures
        final(w).wf(),
        final(w)@ == old(w)@ + fib_code(value as nat),
{
    let mut code: [bool; 7] = [false; 7];
    let mut remaining: u32 = value;
    let mut i: usize = 7;
    proof {
        lemma_fib_values();
        assert(zeckendorf(7, value as nat) =~= zeckendorf(7, remaining as nat) + code@.subrange(
            7,
            7,
        ));
    }
    while i > 0
        invariant
            i <= 7,
            zeckendorf(7, value as nat) == zeckendorf(i as nat, remaining as nat)
                + code@.subrange(i as int, 7),
        decreases i,
    {
        let ghost code0 = code@;
        let ghost i0 = i as nat;
        let ghost r0 = remaining as nat;
        i = i - 1;
        proof {
            lemma_fib_values();
            assert(FIB@[i as int] == fib(i as nat));
        }
        if FIB[i] <= remaining {
            code[i] = true;
            remaining = remaining - FIB[i];
        } else {
            code[i] = false;
        }
        proof {
            let bit = fib(i as nat) <= r0;
            assert(zeckendorf(i0, r0) =~= zeckendorf(i as nat, remaining as nat).push(bit));
            assert(code@.subrange(i as int, 7) =~= seq![bit] + code0.subrange(i0 as int, 7));
            assert(zeckendorf(i as nat, remaining as nat).push(bit) + code0.subrange(i0 as int, 7)
                =~= zeckendorf(i as nat, remaining as nat) + code@.subrange(i as int, 7));
        }
    }
    let ghost n = value as nat;
    let ghost width = fib_width(7, n);
    proof {
        lemma_fib_values();
        assert(code@ =~= zeckendorf(7, n));
        lemma_fib_width(7, n);
        lemma_fib_width_stable(7, 9, n);
        lemma_zeckendorf_trim(7, n);
    }
    let mut end: usize = 7;
    while !code[end - 1]
        invariant
            code@ == zeckendorf(7, n),
            1 <= width <= end <= 7,
            code@[width - 1],
        decreases end,
    {
        end = end - 1;
    }
    assert(end == width) by {
        if end > width {
            assert(!code@[end - 1]);
        }
    }
    let mut k: usize = 0;
    assert(w@ =~= old(w)@ + code@.take(0));
    while k < end
        invariant
            k <= end <= 7,
            w.wf(),
            w@ == old(w)@ + code@.take(k as int),
        decreases end - k,
    {
        let bit: u8 = if code[k] {
            1
        } else {
            0
        };
        w.write_bit(bit);
        k = k + 1;
        assert(code@.take(k as int) =~= code@.take(k - 1).push(code@[k - 1]));
        assert(w@ =~= old(w)@ + code@.take(k as int));
    }
    w.write_bit(1);
    assert(w@ =~= old(w)@ + fib_code(n));
}

/// `floor(log2(v))`.
pub fn floor_log2(v: u32) -> (m: u32)
    requires
        v >= 1,
    ensures
        m == magnitude(v as nat),
        m <= 31,
{
    let mut m: u32 = 0;
    let mut x: u32 = v;
    proof {
        vstd::arithmetic::power2::lemma2_to64();
        lemma_magnitude_bound(v as nat, 32);
    }
    while x > 1
        invariant
            x >= 1,
            magnitude(v as nat) == m + magnitude(x as nat),
            magnitude(v as nat) <= 31,
        decreases x,
    {
        x = x / 2;
        m = m + 1;
    }
    m
}

/// Append the code of `v`.
pub fn write_number(w: &mut BitWriter, v: u32)
    requires
        old(w).wf(),
        v >= 1,
    ensures
        final(w).wf(),
        final(w)@ == old(w)@ + number_code(v as nat),
{
    let m: u32 = floor_log2(v);
    write_fib(w, m + 1);
    let ghost base = w@;
    let mut i: u32 = m;
    proof {
        vstd::arithmetic::power2::lemma_pow2_pos(m as nat);
        assert(base + low_bits(v as nat / pow2(m as nat), 0) =~= base);
    }
    while i > 0
        invariant
            i <= m <= 31,
            w.wf(),
            w@ == base + low_bits(v as nat / pow2(i as nat), (m - i) as nat),
        decreases i,
    {
        let bit: u8 = ((v >> (i - 1)) % 2) as u8;
        w.write_bit(bit);
        proof {
            let j = (i - 1) as nat;
            let x = v as nat / pow2(j);
            vstd::bits::lemma_u32_shr_is_div(v, (i - 1) as u32);
            vstd::arithmetic::power2::lemma_pow2_unfold(i as nat);
            vstd::arithmetic::power2::lemma_pow2_pos(j);
            vstd::arithmetic::div_mod::lemma_div_denominator(v as int, pow2(j) as int, 2);
            assert(x / 2 == v as nat / pow2(i as nat)) by {
                assert(pow2(j) * 2 == 2 * pow2(j)) by (nonlinear_arith);
            }
            assert(low_bits(x, (m - j) as nat) =~= low_bits(x / 2, (m - i) as nat).push(
                x % 2 == 1,
            ));
            assert(w@ =~= base + low_bits(x, (m - j) as nat));
        }
        i = i - 1;
    }
    proof {
        vstd::arithmetic::power2::lemma2_to64();
        assert(v as nat / pow2(0) == v);
        assert(w@ =~= old(w)@ + number_code(v as nat));
    }
}

// ---------------------------------------------------------------------
// Tables
// ---------------------------------------------------------------------

/// How many zero frequencies follow each other from `j` on.
pub open spec fn zero_run(f: Seq<u32>, j: int) -> nat
    decreases f.len() - j,
{
    if 0 <= j < f.len() && f[j] == 0 {
        1 + zero_run(f, j + 1)
    } else {
        0
    }
}

/// The bits that stand for the frequencies from `j` on.
pub open spec fn table_code(f: Seq<u32>, j: int) -> Seq<bool>
    decreases f.len() - j,
{
    if j < 0 || j >= f.len() {
        Seq::empty()
    } else if f[j] == 0 {
        proof {
            lemma_zero_run(f, j);
        }
        fib_code(1) + number_code(zero_run(f, j)) + table_code(f, j + zero_run(f, j))
    } else {
        number_code(f[j] as nat + 1) + table_code(f, j + 1)
    }
}

/// The bytes that stand for a table.
pub open spec fn table_bytes(f: Seq<u32>) -> Seq<u8> {
    bits::pack(table_code(f, 0))
}

/// `n` zero frequencies.
pub open spec fn zeros(n: nat) -> Seq<u32> {
    Seq::new(n, |i: int| 0u32)
}

/// Read frequencies from `p` on until `acc` holds 256 of them. The result
/// is the table and where its bits end.
pub open spec fn read_table(src: Seq<bool>, p: int, acc: Seq<u32>) -> Result<(Seq<u32>, int)>
    decreases src.len() - p,
{
    if acc.len() >= 256 {
        Ok((acc, p))
    } else {
        proof {
            lemma_fib_values();
            lemma_read_code_bounds(7, src, p, 0, 0, false);
        }
        match read_fib_code(7, src, p) {
            Err(e) => Err(e),
            Ok((v, p1)) => if v == 1 {
                proof {
                    lemma_read_code_bounds(7, src, p1, 0, 0, false);
                }
                match read_fib_code(7, src, p1) {
                    Err(e) => Err(e),
                    Ok((run_class, p2)) => match read_suffix(src, p2, (run_class - 1) as nat) {
                        None => Err(Error::Truncated { context: "Fibonacci prefix bit stream" }),
                        Some(x) => {
                            let run = x % 0x1_0000_0000;
                            let left = (256 - acc.len()) as nat;
                            read_table(
                                src,
                                p2 + (run_class - 1),
                                acc + zeros(
                                    if run <= left {
                                        run
                                    } else {
                                        left
                                    },
                                ),
                            )
                        },
                    },
                }
            } else if v > 32 {
                Err(Error::FibonacciOverflow)
            } else {
                match read_suffix(src, p1, (v - 1) as nat) {
                    None => Err(Error::Truncated { context: "Fibonacci prefix bit stream" }),
                    Some(x) => read_table(src, p1 + (v - 1), acc.push((x - 1) as u32)),
                }
            },
        }
    }
}

pub proof fn lemma_zero_run(f: Seq<u32>, j: int)
    requires
        0 <= j <= f.len(),
    ensures
        j + zero_run(f, j) <= f.len(),
        forall|i: int| j <= i < j + zero_run(f, j) ==> #[trigger] f[i] == 0,
        j + zero_run(f, j) < f.len() ==> f[j + zero_run(f, j)] != 0,
    decreases f.len() - j,
{
    if j < f.len() && f[j] == 0 {
        lemma_zero_run(f, j + 1);
    }
}

/// Read a table of 256 frequencies from the start of `src`: the table, and
/// the number of bytes that it touches.
pub fn decode_freq_table(src: &[u8]) -> (r: Result<([u32; 256], usize)>)
    ensures
        match read_table(bits::unpack(src@), 0, Seq::empty()) {
            Ok((f, p)) => {
                &&& r is Ok
                &&& r->Ok_0.0@ == f
                &&& r->Ok_0.1 == bits::bytes_for(p as nat)
                &&& r->Ok_0.1 <= src@.len()
            },
            Err(e) => r == Err::<([u32; 256], usize), Error>(e),
        },
{
    let mut br = BitReader::new(src);
    let mut freq: [u32; 256] = [0u32; 256];
    let mut j: usize = 0;
    let ghost bs = bits::unpack(src@);
    assert(freq@.take(0) =~= Seq::<u32>::empty());
    while j < 256
        invariant
            j <= 256,
            br.wf(),
            br.src@ == src@,
            bs == bits::unpack(src@),
            forall|i: int| j <= i < 256 ==> #[trigger] freq@[i] == 0,
            read_table(bs, 0, Seq::empty()) == read_table(
                bs,
                br.position(),
                freq@.take(j as int),
            ),
        decreases bs.len() - br.position(),
    {
        let ghost acc = freq@.take(j as int);
        let ghost p0 = br.position();
        proof {
            lemma_fib_values();
            lemma_read_code_bounds(7, bs, p0, 0, 0, false);
        }
        let v: u32 = match br.read_fib() {
            Ok(v) => v,
            Err(e) => {
                return Err(e);
            },
        };
        let m: u32 = v - 1;
        if m == 0 {
            proof {
                lemma_read_code_bounds(7, bs, br.position(), 0, 0, false);
            }
            let run_class: u32 = match br.read_fib() {
                Ok(v) => v,
                Err(e) => {
                    return Err(e);
                },
            };
            let run_len: u32 = match br.read_spelled(run_class - 1) {
                Ok(x) => x,
                Err(e) => {
                    return Err(e);
                },
            };
            let left: u32 = 256 - j as u32;
            let advance: usize = if run_len <= left {
                run_len as usize
            } else {
                left as usize
            };
            j = j + advance;
            assert(freq@.take(j as int) =~= acc + zeros(advance as nat));
        } else {
            if m > 31 {
                return Err(Error::FibonacciOverflow);
            }
            let ghost p1 = br.position();
            let suffix: u32 = match br.read_spelled(m) {
                Ok(x) => x,
                Err(e) => {
                    return Err(e);
                },
            };
            proof {
                let s = bs.subrange(p1, p1 + m);
                lemma_spelled_bound(s);
                vstd::arithmetic::power2::lemma2_to64();
                vstd::arithmetic::power2::lemma_pow2_pos(m as nat);
                if m < 31 {
                    vstd::arithmetic::power2::lemma_pow2_strictly_increases(m as nat + 1, 32);
                }
            }
            freq[j] = suffix - 1;
            j = j + 1;
            assert(freq@.take(j as int) =~= acc.push((suffix - 1) as u32));
        }
    }
    proof {
        assert(freq@.take(256) =~= freq@);
    }
    Ok((freq, br.bytes_consumed()))
}

/// Write a table of 256 frequencies.
pub fn encode_freq_table(freq: &[u32; 256]) -> (r: Vec<u8>)
    requires
        forall|i: int| 0 <= i < 256 ==> #[trigger] freq@[i] < u32::MAX,
    ensures
        r@ == table_bytes(freq@),
{
    let mut w = BitWriter::new();
    let mut j: usize = 0;
    let ghost f = freq@;
    assert(w@ + table_code(f, 0) =~= table_code(f, 0));
    while j < 256
        invariant
            j <= 256,
            w.wf(),
            f == freq@,
            forall|i: int| 0 <= i < 256 ==> #[trigger] freq@[i] < u32::MAX,
            w@ + table_code(f, j as int) == table_code(f, 0),
        decreases 256 - j,
    {
        let ghost w0 = w@;
        if freq[j] == 0 {
            let mut run: usize = 1;
            while j + run < 256 && freq[j + run] == 0
                invariant
                    f == freq@,
                    1 <= run,
                    j + run <= 256,
                    zero_run(f, j as int) == run + zero_run(f, j + run),
                decreases 256 - run,
            {
                run = run + 1;
            }
            write_fib(&mut w, 1);
            write_number(&mut w, run as u32);
            proof {
                assert(zero_run(f, j as int) == run);
                assert(w@ + table_code(f, j + run) =~= w0 + table_code(f, j as int));
            }
            j = j + run;
        } else {
            write_number(&mut w, freq[j] + 1);
            proof {
                assert(w@ + table_code(f, j + 1) =~= w0 + table_code(f, j as int));
            }
            j = j + 1;
        }
    }
    assert(w@ + table_code(f, 256) =~= w@);
    w.finish()
}

/// Reading back the frequencies from `j` on completes the table.
proof fn lemma_read_table_code(f: Seq<u32>, src: Seq<bool>, p: int, j: int)
    requires
        f.len() == 256,
        forall|i: int| 0 <= i < 256 ==> #[trigger] f[i] < u32::MAX,
        0 <= j <= 256,
        bits::code_at(src, p, table_code(f, j)),
    ensures
        read_table(src, p, f.take(j)) == Ok::<(Seq<u32>, int), Error>(
            (f, p + table_code(f, j).len()),
        ),
    decreases 256 - j,
{
    if j == 256 {
        assert(f.take(256) =~= f);
    } else if f[j] == 0 {
        let run = zero_run(f, j);
        lemma_zero_run(f, j);
        let a = fib_code(1);
        let b = number_code(run);
        let c = table_code(f, j + run);
        bits::lemma_code_split(src, p, a + b, c);
        bits::lemma_code_split(src, p, a, b);
        lemma_fib_values();
        lemma_read_fib_code(7, src, p, 1);
        lemma_read_number(7, src, p + a.len(), run);
        assert(f.take(j) + zeros(run) =~= f.take(j + run));
        lemma_read_table_code(f, src, p + a.len() + b.len(), j + run);
    } else {
        let v = f[j] as nat + 1;
        let a = number_code(v);
        let c = table_code(f, j + 1);
        bits::lemma_code_split(src, p, a, c);
        lemma_read_number(7, src, p, v);
        assert(f.take(j).push(f[j]) =~= f.take(j + 1));
        lemma_read_table_code(f, src, p + a.len(), j + 1);
    }
}

/// Reading a written table gives the table back and ends where it ended,
/// whatever follows it.
pub proof fn law_table_round_trip(f: Seq<u32>, tail: Seq<u8>)
    requires
        f.len() == 256,
        forall|i: int| 0 <= i < 256 ==> #[trigger] f[i] < u32::MAX,
    ensures
        match read_table(bits::unpack(table_bytes(f) + tail), 0, Seq::empty()) {
            Ok((g, p)) => g == f && bits::bytes_for(p as nat) == table_bytes(f).len(),
            Err(_) => false,
        },
{
    bits::lemma_packed_prefix(table_code(f, 0), tail);
    assert(f.take(0) =~= Seq::<u32>::empty());
    lemma_read_table_code(f, bits::unpack(table_bytes(f) + tail), 0, 0);
}

} // verus!
