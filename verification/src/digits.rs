//! Base-256 positional notation: the value of a byte string and the byte
//! string of a value.
//!
//! Both range coders are described over unbounded integers: an encoder is an
//! interval of the integers, a decoder compares against a prefix of the
//! stream read as one number. This module is the bridge between those numbers
//! and the bytes on the wire.

use vstd::prelude::*;

verus! {

/// `256^n`.
pub open spec fn pow256(n: nat) -> nat
    decreases n,
{
    if n == 0 {
        1
    } else {
        256 * pow256((n - 1) as nat)
    }
}

/// The number that `s` spells, most significant byte first.
pub open spec fn be_value(s: Seq<u8>) -> nat
    decreases s.len(),
{
    if s.len() == 0 {
        0
    } else {
        256 * be_value(s.drop_last()) + s.last() as nat
    }
}

/// The `n` low base-256 digits of `v`, most significant first.
pub open spec fn be_bytes(v: nat, n: nat) -> Seq<u8>
    decreases n,
{
    if n == 0 {
        Seq::empty()
    } else {
        be_bytes(v / 256, (n - 1) as nat).push((v % 256) as u8)
    }
}

/// Byte `i` of `s`, reading zeros past the end.
pub open spec fn byte_or_zero(s: Seq<u8>, i: int) -> int {
    if 0 <= i < s.len() {
        s[i] as int
    } else {
        0
    }
}

/// The number spelled by the first `n` bytes of `s` continued with zeros.
pub open spec fn padded_value(s: Seq<u8>, n: nat) -> int
    decreases n,
{
    if n == 0 {
        0
    } else {
        256 * padded_value(s, (n - 1) as nat) + byte_or_zero(s, n - 1)
    }
}

/// `n` copies of `b`.
pub open spec fn repeat(b: u8, n: nat) -> Seq<u8> {
    Seq::new(n, |i: int| b)
}

pub proof fn lemma_pow256_pos(n: nat)
    ensures
        pow256(n) > 0,
    decreases n,
{
    if n > 0 {
        lemma_pow256_pos((n - 1) as nat);
    }
}

pub proof fn lemma_pow256_add(a: nat, b: nat)
    ensures
        pow256(a + b) == pow256(a) * pow256(b),
    decreases b,
{
    if b == 0 {
        assert(pow256(a) * 1 == pow256(a));
    } else {
        lemma_pow256_add(a, (b - 1) as nat);
        assert((a + b - 1) as nat == a + (b - 1) as nat);
        let x = pow256(a);
        let y = pow256((b - 1) as nat);
        assert(256 * (x * y) == x * (256 * y)) by (nonlinear_arith);
    }
}

pub proof fn lemma_be_value_push(s: Seq<u8>, b: u8)
    ensures
        be_value(s.push(b)) == 256 * be_value(s) + b,
{
    assert(s.push(b).drop_last() =~= s);
}

pub proof fn lemma_be_value_append(a: Seq<u8>, b: Seq<u8>)
    ensures
        be_value(a + b) == be_value(a) * pow256(b.len()) + be_value(b),
    decreases b.len(),
{
    if b.len() == 0 {
        assert(a + b =~= a);
        assert(be_value(a) * 1 == be_value(a));
    } else {
        lemma_be_value_append(a, b.drop_last());
        assert((a + b).drop_last() =~= a + b.drop_last());
        let x = be_value(a);
        let y = pow256((b.len() - 1) as nat);
        assert(256 * (x * y) == x * (256 * y)) by (nonlinear_arith);
    }
}

/// A run of 0xff bytes spells `256^n - 1`; a run of zeros spells 0.
pub proof fn lemma_be_value_runs(n: nat)
    ensures
        be_value(repeat(0xff, n)) == pow256(n) - 1,
        be_value(repeat(0, n)) == 0,
    decreases n,
{
    if n > 0 {
        lemma_be_value_runs((n - 1) as nat);
        assert(repeat(0xff, n).drop_last() =~= repeat(0xff, (n - 1) as nat));
        assert(repeat(0, n).drop_last() =~= repeat(0, (n - 1) as nat));
    }
}

pub proof fn lemma_be_bytes_len(v: nat, n: nat)
    ensures
        be_bytes(v, n).len() == n,
    decreases n,
{
    if n > 0 {
        lemma_be_bytes_len(v / 256, (n - 1) as nat);
    }
}

/// Spelling the value of a byte string gives the byte string back.
pub proof fn lemma_be_bytes_of_value(s: Seq<u8>)
    ensures
        be_bytes(be_value(s), s.len()) == s,
    decreases s.len(),
{
    if s.len() > 0 {
        lemma_be_bytes_of_value(s.drop_last());
        let v = be_value(s);
        assert(v / 256 == be_value(s.drop_last()));
        assert(v % 256 == s.last());
        assert(s.drop_last().push(s.last()) =~= s);
    } else {
        assert(be_bytes(be_value(s), 0) =~= s);
    }
}

/// The value of the spelling of `v` is `v`, where `n` digits hold it.
pub proof fn lemma_be_value_of_bytes(v: nat, n: nat)
    requires
        v < pow256(n),
    ensures
        be_value(be_bytes(v, n)) == v,
    decreases n,
{
    if n > 0 {
        assert(v / 256 < pow256((n - 1) as nat));
        lemma_be_value_of_bytes(v / 256, (n - 1) as nat);
        lemma_be_value_push(be_bytes(v / 256, (n - 1) as nat), (v % 256) as u8);
    }
}

/// Within the string, the padded prefix is the plain prefix.
pub proof fn lemma_padded_prefix(s: Seq<u8>, n: nat)
    requires
        n <= s.len(),
    ensures
        padded_value(s, n) == be_value(s.take(n as int)),
    decreases n,
{
    if n > 0 {
        lemma_padded_prefix(s, (n - 1) as nat);
        assert(s.take(n as int).drop_last() =~= s.take(n - 1));
    } else {
        assert(s.take(0) =~= Seq::empty());
    }
}

/// Dropping the last `b` bytes of a padded prefix divides by `256^b`.
pub proof fn lemma_padded_drop(s: Seq<u8>, a: nat, b: nat)
    ensures
        padded_value(s, a) * pow256(b) <= padded_value(s, a + b) < (padded_value(s, a) + 1)
            * pow256(b),
    decreases b,
{
    if b == 0 {
        assert(padded_value(s, a) * 1 == padded_value(s, a));
        assert((padded_value(s, a) + 1) * 1 == padded_value(s, a) + 1);
    } else {
        lemma_padded_drop(s, a, (b - 1) as nat);
        assert((a + b - 1) as nat == a + (b - 1) as nat);
        let x = padded_value(s, a);
        let y = pow256((b - 1) as nat) as int;
        assert(256 * (x * y) == x * (256 * y)) by (nonlinear_arith);
        assert(256 * ((x + 1) * y) == (x + 1) * (256 * y)) by (nonlinear_arith);
    }
}

} // verus!
