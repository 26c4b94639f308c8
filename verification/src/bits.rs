//! Bit strings, most significant bit of each byte first.

use vstd::prelude::*;

verus! {

/// The weight of bit `k` of a byte, counted from the most significant.
pub open spec fn weight(k: int) -> int {
    if k == 0 {
        128
    } else if k == 1 {
        64
    } else if k == 2 {
        32
    } else if k == 3 {
        16
    } else if k == 4 {
        8
    } else if k == 5 {
        4
    } else if k == 6 {
        2
    } else {
        1
    }
}

/// Bit `k` of a byte, counted from the most significant.
pub open spec fn bit_of(b: u8, k: int) -> bool {
    (b as int / weight(k)) % 2 == 1
}

/// The bits of a byte string.
pub open spec fn unpack(s: Seq<u8>) -> Seq<bool> {
    Seq::new(8 * s.len(), |i: int| bit_of(s[i / 8], i % 8))
}

/// Bit `i` as a number, zero past the end.
pub open spec fn bit_value(bits: Seq<bool>, i: int) -> int {
    if 0 <= i < bits.len() && bits[i] {
        1
    } else {
        0
    }
}

/// Byte `i` of a bit string continued with zeros.
pub open spec fn byte_at(bits: Seq<bool>, i: int) -> u8 {
    (128 * bit_value(bits, 8 * i) + 64 * bit_value(bits, 8 * i + 1) + 32 * bit_value(
        bits,
        8 * i + 2,
    ) + 16 * bit_value(bits, 8 * i + 3) + 8 * bit_value(bits, 8 * i + 4) + 4 * bit_value(
        bits,
        8 * i + 5,
    ) + 2 * bit_value(bits, 8 * i + 6) + bit_value(bits, 8 * i + 7)) as u8
}

/// The number of bytes that `n` bits touch.
pub open spec fn bytes_for(n: nat) -> nat {
    (n + 7) / 8
}

/// The bytes of a bit string, the last one filled up with zeros.
pub open spec fn pack(bits: Seq<bool>) -> Seq<u8> {
    Seq::new(bytes_for(bits.len()), |i: int| byte_at(bits, i))
}

/// The part of `bits` from position `p` on starts with `code`.
pub open spec fn code_at(bits: Seq<bool>, p: int, code: Seq<bool>) -> bool {
    0 <= p && p + code.len() <= bits.len() && forall|i: int|
        0 <= i < code.len() ==> bits[p + i] == #[trigger] code[i]
}

proof fn lemma_digit(hi: int, b: int, lo: int, w: int)
    requires
        0 <= lo < w,
        0 <= b <= 1,
    ensures
        (((2 * hi + b) * w + lo) / w) % 2 == b,
{
    let x = (2 * hi + b) * w + lo;
    vstd::arithmetic::div_mod::lemma_fundamental_div_mod_converse(x, w, 2 * hi + b, lo);
}

proof fn lemma_compose(
    b0: int,
    b1: int,
    b2: int,
    b3: int,
    b4: int,
    b5: int,
    b6: int,
    b7: int,
    k: int,
)
    requires
        0 <= b0 <= 1,
        0 <= b1 <= 1,
        0 <= b2 <= 1,
        0 <= b3 <= 1,
        0 <= b4 <= 1,
        0 <= b5 <= 1,
        0 <= b6 <= 1,
        0 <= b7 <= 1,
        0 <= k < 8,
    ensures
        ({
            let v = 128 * b0 + 64 * b1 + 32 * b2 + 16 * b3 + 8 * b4 + 4 * b5 + 2 * b6 + b7;
            &&& 0 <= v < 256
            &&& (v / weight(k)) % 2 == (if k == 0 {
                b0
            } else if k == 1 {
                b1
            } else if k == 2 {
                b2
            } else if k == 3 {
                b3
            } else if k == 4 {
                b4
            } else if k == 5 {
                b5
            } else if k == 6 {
                b6
            } else {
                b7
            })
        }),
{
    let x1 = 2 * b0 + b1;
    let x2 = 2 * x1 + b2;
    let x3 = 2 * x2 + b3;
    let x4 = 2 * x3 + b4;
    let x5 = 2 * x4 + b5;
    let x6 = 2 * x5 + b6;
    let y6 = 2 * b6 + b7;
    let y5 = 4 * b5 + y6;
    let y4 = 8 * b4 + y5;
    let y3 = 16 * b3 + y4;
    let y2 = 32 * b2 + y3;
    let y1 = 64 * b1 + y2;
    lemma_digit(0, b0, y1, 128);
    lemma_digit(b0, b1, y2, 64);
    lemma_digit(x1, b2, y3, 32);
    lemma_digit(x2, b3, y4, 16);
    lemma_digit(x3, b4, y5, 8);
    lemma_digit(x4, b5, y6, 4);
    lemma_digit(x5, b6, b7, 2);
    lemma_digit(x6, b7, 0, 1);
}

/// The bits of a packed byte are the bits that went in.
pub proof fn lemma_byte_at_bits(bits: Seq<bool>, i: int, k: int)
    requires
        0 <= k < 8,
    ensures
        bit_of(byte_at(bits, i), k) == (bit_value(bits, 8 * i + k) == 1),
{
    lemma_compose(
        bit_value(bits, 8 * i),
        bit_value(bits, 8 * i + 1),
        bit_value(bits, 8 * i + 2),
        bit_value(bits, 8 * i + 3),
        bit_value(bits, 8 * i + 4),
        bit_value(bits, 8 * i + 5),
        bit_value(bits, 8 * i + 6),
        bit_value(bits, 8 * i + 7),
        k,
    );
}

/// A byte is determined by its bits.
pub proof fn lemma_byte_from_bits(b: u8, bits: Seq<bool>, i: int)
    requires
        forall|k: int| 0 <= k < 8 ==> bit_of(b, k) == (#[trigger] bit_value(bits, 8 * i + k) == 1),
    ensures
        byte_at(bits, i) == b,
{
    assert(bit_of(b, 0) == (bit_value(bits, 8 * i + 0) == 1));
    assert(bit_of(b, 1) == (bit_value(bits, 8 * i + 1) == 1));
    assert(bit_of(b, 2) == (bit_value(bits, 8 * i + 2) == 1));
    assert(bit_of(b, 3) == (bit_value(bits, 8 * i + 3) == 1));
    assert(bit_of(b, 4) == (bit_value(bits, 8 * i + 4) == 1));
    assert(bit_of(b, 5) == (bit_value(bits, 8 * i + 5) == 1));
    assert(bit_of(b, 6) == (bit_value(bits, 8 * i + 6) == 1));
    assert(bit_of(b, 7) == (bit_value(bits, 8 * i + 7) == 1));
    assert(b == 128 * ((b / 128) % 2) + 64 * ((b / 64) % 2) + 32 * ((b / 32) % 2) + 16 * ((b / 16)
        % 2) + 8 * ((b / 8) % 2) + 4 * ((b / 4) % 2) + 2 * ((b / 2) % 2) + b % 2) by (bit_vector);
}

/// Unpacking a packed bit string gives the bits, followed by the filling.
pub proof fn lemma_unpack_pack(bits: Seq<bool>)
    ensures
        unpack(pack(bits)).len() == 8 * bytes_for(bits.len()),
        bits.is_prefix_of(unpack(pack(bits))),
        forall|i: int|
            bits.len() <= i < 8 * bytes_for(bits.len()) ==> !#[trigger] unpack(pack(bits))[i],
{
    let u = unpack(pack(bits));
    assert forall|i: int| 0 <= i < u.len() implies #[trigger] u[i] == (bit_value(bits, i) == 1) by {
        lemma_byte_at_bits(bits, i / 8, i % 8);
        assert(8 * (i / 8) + i % 8 == i);
    }
    assert(u.take(bits.len() as int) =~= bits);
}

/// Packing the bits of a byte string gives the byte string back.
pub proof fn law_pack_unpack(s: Seq<u8>)
    ensures
        pack(unpack(s)) == s,
{
    let u = unpack(s);
    assert(pack(u).len() == s.len());
    assert forall|i: int| 0 <= i < s.len() implies pack(u)[i] == s[i] by {
        assert forall|k: int| 0 <= k < 8 implies bit_of(s[i], k) == (#[trigger] bit_value(
            u,
            8 * i + k,
        ) == 1) by {
            assert((8 * i + k) / 8 == i && (8 * i + k) % 8 == k);
        }
        lemma_byte_from_bits(s[i], u, i);
    }
    assert(pack(u) =~= s);
}

pub proof fn lemma_unpack_append(a: Seq<u8>, b: Seq<u8>)
    ensures
        unpack(a + b) == unpack(a) + unpack(b),
{
    let l = unpack(a + b);
    let r = unpack(a) + unpack(b);
    assert forall|i: int| 0 <= i < l.len() implies l[i] == r[i] by {
        if i >= 8 * a.len() {
            let j = i - 8 * a.len();
            assert(i / 8 == a.len() + j / 8 && i % 8 == j % 8);
        }
    }
    assert(l =~= r);
}

/// A bit string that was packed is read back from the start of any byte
/// string that starts with the packed bytes.
pub proof fn lemma_packed_prefix(bits: Seq<bool>, tail: Seq<u8>)
    ensures
        code_at(unpack(pack(bits) + tail), 0, bits),
{
    lemma_unpack_pack(bits);
    lemma_unpack_append(pack(bits), tail);
    let u = unpack(pack(bits));
    assert forall|i: int| 0 <= i < bits.len() implies unpack(pack(bits) + tail)[0 + i]
        == #[trigger] bits[i] by {
        assert(u.take(bits.len() as int)[i] == bits[i]);
    }
}

/// A concatenation is found part by part.
pub proof fn lemma_code_split(bits: Seq<bool>, p: int, a: Seq<bool>, b: Seq<bool>)
    requires
        code_at(bits, p, a + b),
    ensures
        code_at(bits, p, a),
        code_at(bits, p + a.len(), b),
{
    let c = a + b;
    assert forall|i: int| 0 <= i < a.len() implies bits[p + i] == #[trigger] a[i] by {
        assert(c[i] == a[i]);
    }
    assert forall|i: int| 0 <= i < b.len() implies bits[p + a.len() + i] == #[trigger] b[i] by {
        assert(c[a.len() + i] == b[i]);
        assert(bits[p + (a.len() + i)] == c[a.len() + i]);
    }
}

} // verus!
