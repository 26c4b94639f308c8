//! Zero-run escapes of residual planes.
//!
//! `escape_len` zero bytes in a row (one to three, by channel) are always
//! followed by a supplement byte, which says how many more zeros the run
//! holds. Shorter runs stand for themselves.

use crate::error::{Error, Result};
use vstd::prelude::*;

verus! {

/// The number of zeros that a supplement byte adds to a run: small even
/// numbers count up from 0, small odd numbers count down from 255.
pub open spec fn padding(s: u8) -> nat {
    if s < 128 {
        2 * s as nat
    } else {
        (2 * (255 - s) + 1) as nat
    }
}

/// The supplement byte that adds `n <= 255` zeros.
pub open spec fn supplement(n: nat) -> u8 {
    if n % 2 == 0 {
        (n / 2) as u8
    } else {
        (255 - (n - 1) / 2) as u8
    }
}

/// `n` zero bytes.
pub open spec fn zeros(n: nat) -> Seq<u8> {
    Seq::new(n, |i: int| 0u8)
}

/// The number of zeros in a row from `i` on.
pub open spec fn zero_run(s: Seq<u8>, i: int) -> nat
    decreases s.len() - i,
{
    if 0 <= i < s.len() && s[i] == 0 {
        1 + zero_run(s, i + 1)
    } else {
        0
    }
}

/// The smaller of two lengths.
pub open spec fn least(a: nat, b: nat) -> nat {
    if a <= b {
        a
    } else {
        b
    }
}

/// Expand the escapes of `src` from `i` on until `out` holds `n` bytes. The
/// result is the output and the number of bytes of `src` that were used.
pub open spec fn expand_from(src: Seq<u8>, e: nat, n: nat, i: int, out: Seq<u8>) -> Result<
    (Seq<u8>, int),
>
    decreases n - out.len(),
{
    if out.len() >= n || e == 0 {
        Ok((out, i))
    } else {
        let run = least(zero_run(src, i), e);
        let room = (n - out.len()) as nat;
        if run == e {
            if i + e >= src.len() {
                Err(Error::Truncated { context: "RLE escape supplement byte" })
            } else {
                expand_from(
                    src,
                    e,
                    n,
                    i + e + 1,
                    out + zeros(least(e + padding(src[i + e]), room)),
                )
            }
        } else if run >= room {
            Ok((out + zeros(room), i + run))
        } else if i + run >= src.len() {
            Err(Error::Truncated { context: "RLE input ran out before output filled" })
        } else {
            expand_from(src, e, n, i + run + 1, (out + zeros(run)).push(src[i + run]))
        }
    }
}

/// Expand the escapes of `src` into `n` bytes.
pub open spec fn expand(src: Seq<u8>, e: nat, n: nat) -> Result<(Seq<u8>, int)> {
    expand_from(src, e, n, 0, Seq::empty())
}

/// How a run of `r` zeros is written: as few escapes as possible, each as
/// long as possible, then the rest.
pub open spec fn run_code(e: nat, r: nat) -> Seq<u8>
    decreases r,
{
    if r < e || e == 0 {
        zeros(r)
    } else {
        let chunk = least(r, e + 255);
        zeros(e).push(supplement((chunk - e) as nat)) + run_code(e, (r - chunk) as nat)
    }
}

/// The number of zeros that [`run_code`] leaves outside escapes.
pub open spec fn run_rest(e: nat, r: nat) -> nat
    decreases r,
{
    if r < e || e == 0 {
        r
    } else {
        run_rest(e, (r - least(r, e + 255)) as nat)
    }
}

/// How the bytes of `p` from `j` on are written.
pub open spec fn contract_from(p: Seq<u8>, e: nat, j: int) -> Seq<u8>
    decreases p.len() - j,
{
    let r = zero_run(p, j);
    if 0 <= j && j + r < p.len() {
        run_code(e, r).push(p[j + r]) + contract_from(p, e, j + r + 1)
    } else {
        run_code(e, r)
    }
}

/// How a plane is written.
pub open spec fn contract(p: Seq<u8>, e: nat) -> Seq<u8> {
    contract_from(p, e, 0)
}

/// The number of zeros at the end of `p` from `j` on that stand outside
/// escapes when `p` is written.
pub open spec fn loose_end(p: Seq<u8>, e: nat, j: int) -> nat
    decreases p.len() - j,
{
    let r = zero_run(p, j);
    if 0 <= j && j + r < p.len() {
        loose_end(p, e, j + r + 1)
    } else {
        run_rest(e, r)
    }
}

pub proof fn lemma_zero_run(s: Seq<u8>, i: int)
    requires
        0 <= i <= s.len(),
    ensures
        i + zero_run(s, i) <= s.len(),
        forall|k: int| i <= k < i + zero_run(s, i) ==> #[trigger] s[k] == 0,
        i + zero_run(s, i) < s.len() ==> s[i + zero_run(s, i)] != 0,
    decreases s.len() - i,
{
    if i < s.len() && s[i] == 0 {
        lemma_zero_run(s, i + 1);
    }
}

/// A run is at least as long as the zeros that are known of.
proof fn lemma_zero_run_at_least(s: Seq<u8>, i: int, n: nat)
    requires
        0 <= i,
        i + n <= s.len(),
        forall|k: int| i <= k < i + n ==> #[trigger] s[k] == 0,
    ensures
        zero_run(s, i) >= n,
    decreases n,
{
    if n > 0 {
        lemma_zero_run_at_least(s, i + 1, (n - 1) as nat);
    }
}

/// A run of known zeros ends where a non-zero byte or the end follows.
proof fn lemma_zero_run_exact(s: Seq<u8>, i: int, n: nat)
    requires
        0 <= i,
        i + n <= s.len(),
        forall|k: int| i <= k < i + n ==> #[trigger] s[k] == 0,
        i + n < s.len() ==> s[i + n] != 0,
    ensures
        zero_run(s, i) == n,
    decreases n,
{
    if n > 0 {
        lemma_zero_run_exact(s, i + 1, (n - 1) as nat);
    }
}

/// The number of zeros that a supplement byte adds.
pub fn padding_of(s: u8) -> (n: usize)
    ensures
        n == padding(s),
        n <= 255,
{
    if s < 128 {
        2 * (s as usize)
    } else {
        2 * (255 - s as usize) + 1
    }
}

/// The supplement byte that adds `n` zeros.
pub fn supplement_for_padding(n: usize) -> (s: u8)
    requires
        n <= 255,
    ensures
        s == supplement(n as nat),
        padding(s) == n,
{
    if n % 2 == 0 {
        (n / 2) as u8
    } else {
        (255 - (n - 1) / 2) as u8
    }
}

/// Append `n` zeros.
fn push_zeros(out: &mut Vec<u8>, n: usize)
    requires
        old(out)@.len() + n <= usize::MAX,
    ensures
        final(out)@ == old(out)@ + zeros(n as nat),
{
    let new_len: usize = out.len() + n;
    out.resize(new_len, 0);
    assert(out@ =~= old(out)@ + zeros(n as nat)) by {
        if n == 0 {
            assert(out@ =~= old(out)@.subrange(0, new_len as int));
        } else {
            assert forall|i: int| 0 <= i < old(out)@.len() implies out@[i] == old(out)@[i] by {
                assert(out@.subrange(0, old(out)@.len() as int)[i] == out@[i]);
            }
        }
    }
}

/// Expand escapes into `n_pixels` bytes: the bytes, and how much of `src`
/// they took.
pub fn expand_raw(src: &[u8], escape_len: usize, n_pixels: usize) -> (r: Result<(Vec<u8>, usize)>)
    requires
        1 <= escape_len <= 3,
    ensures
        match expand(src@, escape_len as nat, n_pixels as nat) {
            Ok((out, used)) => {
                &&& r is Ok
                &&& r->Ok_0.0@ == out
                &&& r->Ok_0.1 == used
                &&& used <= src@.len()
                &&& out.len() == n_pixels
            },
            Err(e) => r == Err::<(Vec<u8>, usize), Error>(e),
        },
{
    let ghost e = escape_len as nat;
    let ghost n = n_pixels as nat;
    let mut out: Vec<u8> = Vec::with_capacity(n_pixels);
    let mut i: usize = 0;
    while out.len() < n_pixels
        invariant
            1 <= escape_len <= 3,
            e == escape_len,
            n == n_pixels,
            i <= src@.len(),
            out@.len() <= n_pixels,
            expand(src@, e, n) == expand_from(src@, e, n, i as int, out@),
        decreases n_pixels - out.len(),
    {
        let remaining: usize = src.len() - i;
        let mut run: usize = 0;
        while run < escape_len && run < remaining && src[i + run] == 0
            invariant
                i <= src.len(),
                remaining == src.len() - i,
                run <= escape_len,
                run <= remaining,
                zero_run(src@, i as int) == run + zero_run(src@, i + run),
            decreases escape_len - run,
        {
            run = run + 1;
        }
        proof {
            lemma_zero_run(src@, i as int);
            assert(run == least(zero_run(src@, i as int), e));
        }
        let room: usize = n_pixels - out.len();
        if run == escape_len {
            if remaining < escape_len + 1 {
                return Err(Error::Truncated { context: "RLE escape supplement byte" });
            }
            let total: usize = escape_len + padding_of(src[i + escape_len]);
            let advance: usize = if total <= room {
                total
            } else {
                room
            };
            push_zeros(&mut out, advance);
            i = i + escape_len + 1;
        } else if run >= room {
            push_zeros(&mut out, room);
            i = i + run;
            return Ok((out, i));
        } else {
            if i + run >= src.len() {
                return Err(
                    Error::Truncated { context: "RLE input ran out before output filled" },
                );
            }
            push_zeros(&mut out, run);
            out.push(src[i + run]);
            i = i + run + 1;
        }
    }
    Ok((out, i))
}

/// Append the code of a run of `run` zeros.
fn push_run(out: &mut Vec<u8>, escape_len: usize, run: usize)
    requires
        1 <= escape_len <= 3,
        old(out)@.len() + 2 * run + 8 <= usize::MAX,
    ensures
        final(out)@ == old(out)@ + run_code(escape_len as nat, run as nat),
        final(out)@.len() <= old(out)@.len() + 2 * run,
{
    let ghost e = escape_len as nat;
    let mut left: usize = run;
    assert(out@ + run_code(e, left as nat) =~= old(out)@ + run_code(e, run as nat));
    while left >= escape_len
        invariant
            1 <= escape_len <= 3,
            e == escape_len,
            left <= run,
            old(out)@.len() + 2 * run + 8 <= usize::MAX,
            out@.len() + 2 * left <= old(out)@.len() + 2 * run,
            out@ + run_code(e, left as nat) == old(out)@ + run_code(e, run as nat),
        decreases left,
    {
        let ghost out0 = out@;
        let ghost left0 = left as nat;
        let chunk: usize = if left <= escape_len + 255 {
            left
        } else {
            escape_len + 255
        };
        push_zeros(out, escape_len);
        out.push(supplement_for_padding(chunk - escape_len));
        left = left - chunk;
        assert(out@ + run_code(e, left as nat) =~= out0 + run_code(e, left0));
    }
    push_zeros(out, left);
}

/// Write a plane with escapes. The inverse of [`expand_raw`].
pub fn contract_raw(plane: &[u8], escape_len: usize) -> (r: Vec<u8>)
    requires
        1 <= escape_len <= 3,
        2 * plane@.len() + 8 <= usize::MAX,
    ensures
        r@ == contract(plane@, escape_len as nat),
        r@.len() <= 2 * plane@.len(),
{
    let ghost e = escape_len as nat;
    let mut out: Vec<u8> = Vec::with_capacity(plane.len());
    let mut i: usize = 0;
    assert(out@ + contract_from(plane@, e, 0) =~= contract(plane@, e));
    loop
        invariant_except_break
            i <= plane@.len(),
        invariant
            1 <= escape_len <= 3,
            e == escape_len,
            2 * plane@.len() + 8 <= usize::MAX,
            out@.len() <= 2 * i,
            out@ + contract_from(plane@, e, i as int) == contract(plane@, e),
        ensures
            out@ == contract(plane@, e),
            out@.len() <= 2 * plane@.len(),
        decreases plane@.len() + 1 - i,
    {
        let ghost out0 = out@;
        let mut run: usize = 0;
        while i + run < plane.len() && plane[i + run] == 0
            invariant
                i + run <= plane@.len(),
                2 * plane@.len() + 8 <= usize::MAX,
                zero_run(plane@, i as int) == run + zero_run(plane@, i + run),
            decreases plane@.len() - run,
        {
            run = run + 1;
        }
        push_run(&mut out, escape_len, run);
        assert(run == zero_run(plane@, i as int));
        if i + run >= plane.len() {
            i = i + run;
            assert(out@ + contract_from(plane@, e, i as int) =~= out@);
            break ;
        }
        out.push(plane[i + run]);
        i = i + run + 1;
        assert(out@ + contract_from(plane@, e, i as int) =~= out0 + contract_from(
            plane@,
            e,
            i - run - 1,
        ));
    }
    out
}

// ---------------------------------------------------------------------
// Laws
// ---------------------------------------------------------------------

/// Paddings and supplement bytes correspond one to one.
pub proof fn law_supplement_bijective(n: nat, s: u8)
    requires
        n <= 255,
    ensures
        padding(supplement(n)) == n,
        supplement(padding(s)) == s,
        padding(s) <= 255,
{
}

/// Expanding a written plane gives the plane back and uses exactly the bytes
/// that were written, whatever follows them, unless loose zeros at the end
/// run into a zero.
pub proof fn law_round_trip(p: Seq<u8>, e: nat, tail: Seq<u8>)
    requires
        1 <= e <= 3,
        loose_end(p, e, 0) == 0 || tail.len() == 0 || tail[0] != 0,
    ensures
        expand(contract(p, e) + tail, e, p.len()) == Ok::<(Seq<u8>, int), Error>(
            (p, contract(p, e).len() as int),
        ),
{
    let r = zero_run(p, 0);
    lemma_zero_run(p, 0);
    let src = contract(p, e) + tail;
    assert(p.take(0) =~= Seq::empty());
    assert(src.skip(0) =~= src);
    assert(contract(p, e) =~= run_code(e, r) + rest_code(p, e, r as int));
    lemma_expand(p, e, tail, src, 0, 0, r);
}

proof fn lemma_run_code_len(e: nat, r: nat)
    requires
        e >= 1,
    ensures
        run_code(e, r).len() <= 2 * r,
    decreases r,
{
    if r >= e {
        lemma_run_code_len(e, (r - least(r, e + 255)) as nat);
    }
}

proof fn lemma_contract_from_len(p: Seq<u8>, e: nat, j: int)
    requires
        e >= 1,
        0 <= j <= p.len(),
    ensures
        contract_from(p, e, j).len() <= 2 * (p.len() - j),
    decreases p.len() - j,
{
    let r = zero_run(p, j);
    lemma_zero_run(p, j);
    lemma_run_code_len(e, r);
    if j + r < p.len() {
        lemma_contract_from_len(p, e, j + r + 1);
    }
}

/// Writing a plane with escapes at most doubles it.
pub proof fn law_contract_bounded(p: Seq<u8>, e: nat)
    requires
        e >= 1,
    ensures
        contract(p, e).len() <= 2 * p.len(),
{
    lemma_contract_from_len(p, e, 0);
}

/// What follows the zeros before position `j`.
spec fn rest_code(p: Seq<u8>, e: nat, j: int) -> Seq<u8> {
    if j < p.len() {
        seq![p[j]] + contract_from(p, e, j + 1)
    } else {
        Seq::empty()
    }
}

/// The loose zeros of a run and of what follows it.
spec fn rest_loose(p: Seq<u8>, e: nat, j: int, r: nat) -> nat {
    if j < p.len() {
        loose_end(p, e, j + 1)
    } else {
        run_rest(e, r)
    }
}

/// With `r` zeros still to come at position `j` of the plane, and their code
/// and all that follows at position `k` of the stream, the rest expands.
#[verifier::spinoff_prover]
#[verifier::rlimit(40)]
proof fn lemma_expand(
    p: Seq<u8>,
    e: nat,
    tail: Seq<u8>,
    src: Seq<u8>,
    k: int,
    j: int,
    r: nat,
)
    requires
        1 <= e <= 3,
        0 <= j,
        j + r <= p.len(),
        0 <= k <= src.len(),
        forall|i: int| j <= i < j + r ==> #[trigger] p[i] == 0,
        j + r < p.len() ==> p[(j + r) as int] != 0,
        src.skip(k) == run_code(e, r) + rest_code(p, e, j + r) + tail,
        rest_loose(p, e, j + r, r) == 0 || tail.len() == 0 || tail[0] != 0,
    ensures
        expand_from(src, e, p.len(), k, p.take(j)) == Ok::<(Seq<u8>, int), Error>(
            (p, src.len() - tail.len()),
        ),
    decreases p.len() - j,
{
    let n = p.len();
    let after = rest_code(p, e, j + r);
    let rem = src.skip(k);
    if j == n {
        assert(p.take(j) =~= p);
        assert(rem.len() == tail.len());
    } else if r >= e {
        let chunk = least(r, e + 255);
        let more = run_code(e, (r - chunk) as nat);
        let sup = supplement((chunk - e) as nat);
        let rest = more + after + tail;
        assert(rem =~= zeros(e).push(sup) + rest);
        lemma_step_escape(src, e, n, k, p.take(j), sup, rest);
        assert(p.take(j) + zeros(chunk) =~= p.take(j + chunk));
        lemma_expand(p, e, tail, src, k + e + 1, j + chunk, (r - chunk) as nat);
    } else if j + r < n {
        let j2 = j + r + 1;
        let r2 = zero_run(p, j2);
        let next = p[(j + r) as int];
        let rest = run_code(e, r2) + rest_code(p, e, j2 + r2) + tail;
        lemma_zero_run(p, j2);
        assert(contract_from(p, e, j2) =~= run_code(e, r2) + rest_code(p, e, j2 + r2));
        assert(rem =~= zeros(r).push(next) + rest);
        lemma_step_literal(src, e, n, k, p.take(j), r, next, rest);
        assert((p.take(j) + zeros(r)).push(next) =~= p.take(j2));
        lemma_expand(p, e, tail, src, k + r + 1, j2, r2);
    } else {
        assert(rem =~= zeros(r) + tail);
        lemma_step_last(src, e, n, k, p.take(j), r, tail);
        assert(p.take(j) + zeros(r) =~= p);
    }
}

/// An escape at the cursor fires.
proof fn lemma_step_escape(
    src: Seq<u8>,
    e: nat,
    n: nat,
    k: int,
    out: Seq<u8>,
    sup: u8,
    rest: Seq<u8>,
)
    requires
        1 <= e <= 3,
        0 <= k <= src.len(),
        out.len() < n,
        src.skip(k) == zeros(e).push(sup) + rest,
    ensures
        k + e + 1 <= src.len(),
        src.skip(k + e + 1) == rest,
        expand_from(src, e, n, k, out) == expand_from(
            src,
            e,
            n,
            k + e + 1,
            out + zeros(least(e + padding(sup), (n - out.len()) as nat)),
        ),
{
    let rem = src.skip(k);
    assert(rem.len() == e + 1 + rest.len());
    assert forall|i: int| k <= i < k + e implies #[trigger] src[i] == 0 by {
        assert(rem[i - k] == 0);
    }
    assert(rem[e as int] == sup);
    lemma_zero_run_at_least(src, k, e);
    assert(src.skip(k + e + 1) =~= rest) by {
        assert forall|i: int| 0 <= i < rest.len() implies src.skip(k + e + 1)[i] == rest[i] by {
            assert(rem[e + 1 + i] == rest[i]);
        }
    }
}

/// Fewer zeros than an escape needs, and the byte behind them, stand for
/// themselves.
proof fn lemma_step_literal(
    src: Seq<u8>,
    e: nat,
    n: nat,
    k: int,
    out: Seq<u8>,
    r: nat,
    next: u8,
    rest: Seq<u8>,
)
    requires
        r < e <= 3,
        0 <= k <= src.len(),
        out.len() + r < n,
        next != 0,
        src.skip(k) == zeros(r).push(next) + rest,
    ensures
        k + r + 1 <= src.len(),
        src.skip(k + r + 1) == rest,
        expand_from(src, e, n, k, out) == expand_from(
            src,
            e,
            n,
            k + r + 1,
            (out + zeros(r)).push(next),
        ),
{
    let rem = src.skip(k);
    assert(rem.len() == r + 1 + rest.len());
    assert forall|i: int| k <= i < k + r implies #[trigger] src[i] == 0 by {
        assert(rem[i - k] == 0);
    }
    assert(rem[r as int] == next);
    lemma_zero_run_exact(src, k, r);
    assert(src.skip(k + r + 1) =~= rest) by {
        assert forall|i: int| 0 <= i < rest.len() implies src.skip(k + r + 1)[i] == rest[i] by {
            assert(rem[r + 1 + i] == rest[i]);
        }
    }
}

/// Loose zeros complete the output.
proof fn lemma_step_last(
    src: Seq<u8>,
    e: nat,
    n: nat,
    k: int,
    out: Seq<u8>,
    r: nat,
    tail: Seq<u8>,
)
    requires
        0 < r < e <= 3,
        0 <= k <= src.len(),
        out.len() + r == n,
        tail.len() == 0 || tail[0] != 0,
        src.skip(k) == zeros(r) + tail,
    ensures
        expand_from(src, e, n, k, out) == Ok::<(Seq<u8>, int), Error>((out + zeros(r), k + r)),
        k + r == src.len() - tail.len(),
{
    let rem = src.skip(k);
    assert(rem.len() == r + tail.len());
    assert forall|i: int| k <= i < k + r implies #[trigger] src[i] == 0 by {
        assert(rem[i - k] == 0);
    }
    if tail.len() > 0 {
        assert(rem[r as int] == tail[0]);
    }
    lemma_zero_run_exact(src, k, r);
}

/// A stream that expands gives exactly as many bytes as were asked for.
pub proof fn law_expanded_len(src: Seq<u8>, e: nat, n: nat)
    requires
        e > 0,
    ensures
        expand(src, e, n) matches Ok(x) ==> x.0.len() == n,
{
    lemma_expanded_len(src, e, n, 0, Seq::empty());
}

/// The rest of a stream that expands fills what is missing.
proof fn lemma_expanded_len(src: Seq<u8>, e: nat, n: nat, i: int, out: Seq<u8>)
    requires
        e > 0,
        out.len() <= n,
    ensures
        expand_from(src, e, n, i, out) matches Ok(x) ==> x.0.len() == n,
    decreases n - out.len(),
{
    if out.len() < n {
        let run = least(zero_run(src, i), e);
        let room = (n - out.len()) as nat;
        if run == e {
            if i + e < src.len() {
                let more = zeros(least(e + padding(src[i + e]), room));
                lemma_expanded_len(src, e, n, i + e + 1, out + more);
            }
        } else if run < room && i + run < src.len() {
            lemma_expanded_len(
                src,
                e,
                n,
                i + run + 1,
                (out + zeros(run)).push(src[i + run]),
            );
        }
    }
}

/// With escapes of one zero, every zero is in an escape.
pub proof fn lemma_nothing_loose(p: Seq<u8>, j: int)
    requires
        0 <= j,
    ensures
        loose_end(p, 1, j) == 0,
    decreases p.len() - j,
{
    let r = zero_run(p, j);
    lemma_no_rest(r);
    if j + r < p.len() {
        lemma_nothing_loose(p, j + r + 1);
    }
}

proof fn lemma_no_rest(r: nat)
    ensures
        run_rest(1, r) == 0,
    decreases r,
{
    if r > 0 {
        lemma_no_rest((r - least(r, 256)) as nat);
    }
}

/// A plane with samples is not written as nothing.
pub proof fn lemma_contract_nonempty(p: Seq<u8>, e: nat)
    requires
        e >= 1,
        p.len() > 0,
    ensures
        contract(p, e).len() > 0,
{
    let r = zero_run(p, 0);
    lemma_zero_run(p, 0);
}

/// Four zeros in a row.
pub open spec fn four_zeros(p: Seq<u8>, i: int) -> bool {
    p[i] == 0 && p[i + 1] == 0 && p[i + 2] == 0 && p[i + 3] == 0
}

/// Escapes of two or three zeros do not pay where no run has more than
/// three.
pub proof fn lemma_short_runs(p: Seq<u8>, e: nat)
    requires
        2 <= e <= 3,
        forall|i: int| 0 <= i && i + 4 <= p.len() ==> !#[trigger] four_zeros(p, i),
    ensures
        contract(p, e).len() >= p.len(),
{
    lemma_short_runs_from(p, e, 0);
}

proof fn lemma_short_runs_from(p: Seq<u8>, e: nat, j: int)
    requires
        2 <= e <= 3,
        forall|i: int| 0 <= i && i + 4 <= p.len() ==> !#[trigger] four_zeros(p, i),
        0 <= j <= p.len(),
    ensures
        contract_from(p, e, j).len() >= p.len() - j,
    decreases p.len() - j,
{
    let r = zero_run(p, j);
    lemma_zero_run(p, j);
    if r >= 4 {
        assert(p[j] == 0 && p[j + 1] == 0 && p[j + 2] == 0 && p[j + 3] == 0);
        assert(four_zeros(p, j));
    }
    reveal_with_fuel(run_code, 2);
    assert(run_code(e, r).len() >= r);
    if j + r < p.len() {
        lemma_short_runs_from(p, e, j + r + 1);
    }
}

// ---------------------------------------------------------------------
// What the bytes stand for
// ---------------------------------------------------------------------

/// Supplement bytes count 0, 255, 1, 254, 2, 253, and so on.
pub proof fn law_supplements(k: nat)
    requires
        k < 128,
    ensures
        padding(k as u8) == 2 * k,
        padding((255 - k) as u8) == 2 * k + 1,
        supplement(2 * k) == k,
        supplement(2 * k + 1) == 255 - k,
{
}

/// An expansion behind `head`, which `used` bytes stand for.
pub open spec fn behind(head: Seq<u8>, used: int, r: Result<(Seq<u8>, int)>) -> Result<
    (Seq<u8>, int),
> {
    match r {
        Ok(x) => Ok((head + x.0, used + x.1)),
        Err(e) => Err(e),
    }
}

proof fn lemma_zero_run_skip(s: Seq<u8>, i: int, j: int)
    requires
        0 <= i,
        0 <= j,
        i + j <= s.len(),
    ensures
        zero_run(s.skip(i), j) == zero_run(s, i + j),
    decreases s.len() - i - j,
{
    if i + j < s.len() && s[i + j] == 0 {
        lemma_zero_run_skip(s, i, j + 1);
    }
}

/// The rest of a stream expands as if it stood alone.
#[verifier::spinoff_prover]
#[verifier::rlimit(60)]
proof fn lemma_expand_rest(src: Seq<u8>, e: nat, n: nat, i: int, out: Seq<u8>)
    requires
        e >= 1,
        0 <= i <= src.len(),
        out.len() <= n,
    ensures
        expand_from(src, e, n, i, out) == behind(
            out,
            i,
            expand(src.skip(i), e, (n - out.len()) as nat),
        ),
    decreases n - out.len(),
{
    let rest = src.skip(i);
    let room = (n - out.len()) as nat;
    lemma_zero_run_skip(src, i, 0);
    lemma_zero_run(src, i);
    if room == 0 {
        assert(out + Seq::<u8>::empty() =~= out);
    } else {
        let run = least(zero_run(src, i), e);
        if run == e {
            if i + e < src.len() {
                let d = zeros(least(e + padding(src[i + e]), room));
                lemma_expand_rest(src, e, n, i + e + 1, out + d);
                lemma_expand_rest(rest, e, room, e as int + 1, d);
                assert(rest.skip(e as int + 1) =~= src.skip(i + e + 1));
                assert(rest[e as int] == src[i + e]);
                assert(Seq::<u8>::empty() + d =~= d);
                let x = expand(src.skip(i + e + 1), e, (room - d.len()) as nat);
                if x is Ok {
                    assert((out + d) + x->Ok_0.0 =~= out + (d + x->Ok_0.0));
                }
            }
        } else if run >= room {
            assert(Seq::<u8>::empty() + zeros(room) =~= zeros(room));
        } else if i + run < src.len() {
            let d = zeros(run).push(src[i + run]);
            assert((out + zeros(run)).push(src[i + run]) =~= out + d);
            lemma_expand_rest(src, e, n, i + run + 1, out + d);
            lemma_expand_rest(rest, e, room, run as int + 1, d);
            assert(rest.skip(run as int + 1) =~= src.skip(i + run + 1));
            assert(rest[run as int] == src[i + run]);
            assert((Seq::<u8>::empty() + zeros(run)).push(rest[run as int]) =~= d);
            let x = expand(src.skip(i + run + 1), e, (room - d.len()) as nat);
            if x is Ok {
                assert((out + d) + x->Ok_0.0 =~= out + (d + x->Ok_0.0));
            }
        }
    }
}

/// A run of zeros and what ends it.
proof fn lemma_leading_zeros(r: nat, t: Seq<u8>)
    ensures
        zero_run(zeros(r) + t, 0) >= r,
        t.len() == 0 || t[0] != 0 ==> zero_run(zeros(r) + t, 0) == r,
{
    let s = zeros(r) + t;
    assert(forall|k: int| 0 <= k < r ==> s[k] == 0);
    lemma_zero_run_at_least(s, 0, r);
    if t.len() == 0 || t[0] != 0 {
        lemma_zero_run(s, 0);
        if zero_run(s, 0) > r {
            assert(s[r as int] == 0);
        }
    }
}

/// `e` zeros and a supplement byte stand for `e` zeros and as many more as
/// the supplement says, at most as many as are asked for.
pub proof fn law_escape_expands(e: nat, s: u8, rest: Seq<u8>, n: nat)
    requires
        1 <= e,
        0 < n,
    ensures
        ({
            let src = Seq::new(e, |i: int| 0u8) + seq![s] + rest;
            let k = e + if s < 128 {
                2 * s as nat
            } else {
                (511 - 2 * s) as nat
            };
            expand(src, e, n) == if k <= n {
                behind(Seq::new(k, |i: int| 0u8), e as int + 1, expand(rest, e, (n - k) as nat))
            } else {
                Ok((Seq::new(n, |i: int| 0u8), e as int + 1))
            }
        }),
{
    let src = Seq::new(e, |i: int| 0u8) + seq![s] + rest;
    let k = e + padding(s);
    assert(src =~= zeros(e) + (seq![s] + rest));
    lemma_leading_zeros(e, seq![s] + rest);
    assert(src[e as int] == s);
    let d = zeros(least(k, n));
    assert(Seq::<u8>::empty() + d =~= d);
    lemma_expand_rest(src, e, n, e as int + 1, d);
    assert(src.skip(e as int + 1) =~= rest);
    assert(d =~= Seq::new(least(k, n), |i: int| 0u8));
    if k > n {
        assert(d + Seq::<u8>::empty() =~= d);
    }
}

/// Fewer than `e` zeros and the byte other than zero behind them stand for
/// themselves.
pub proof fn law_literal_expands(e: nat, r: nat, b: u8, rest: Seq<u8>, n: nat)
    requires
        r < e,
        b != 0,
        r < n,
    ensures
        ({
            let lit = Seq::new(r, |i: int| 0u8) + seq![b];
            expand(lit + rest, e, n) == behind(lit, r as int + 1, expand(rest, e, (n - r - 1) as nat))
        }),
{
    let lit = Seq::new(r, |i: int| 0u8) + seq![b];
    let src = lit + rest;
    assert(src =~= zeros(r) + (seq![b] + rest));
    lemma_leading_zeros(r, seq![b] + rest);
    assert(src[r as int] == b);
    assert((Seq::<u8>::empty() + zeros(r)).push(b) =~= lit);
    lemma_expand_rest(src, e, n, r as int + 1, lit);
    assert(src.skip(r as int + 1) =~= rest);
}

/// Where nothing more is asked for, nothing is read. Fewer than `e` zeros
/// fill what is missing. A stream that ends inside an escape, or before
/// there are bytes enough, is refused.
pub proof fn law_expansion_ends(e: nat, r: nat, t: Seq<u8>, n: nat)
    requires
        1 <= e,
        t.len() == 0 || t[0] != 0,
    ensures
        ({
            let src = Seq::new(r, |i: int| 0u8) + t;
            &&& n == 0 ==> expand(src, e, n) == Ok::<(Seq<u8>, int), Error>((Seq::empty(), 0))
            &&& r < e && 0 < n <= r ==> expand(src, e, n) == Ok::<(Seq<u8>, int), Error>(
                (Seq::new(n, |i: int| 0u8), r as int),
            )
            &&& r < e && r < n && t.len() == 0 ==> expand(src, e, n) == Err::<
                (Seq<u8>, int),
                Error,
            >(Error::Truncated { context: "RLE input ran out before output filled" })
            &&& r == e && 0 < n && t.len() == 0 ==> expand(src, e, n) == Err::<
                (Seq<u8>, int),
                Error,
            >(Error::Truncated { context: "RLE escape supplement byte" })
        }),
{
    let src = Seq::new(r, |i: int| 0u8) + t;
    assert(src =~= zeros(r) + t);
    lemma_leading_zeros(r, t);
    assert(Seq::<u8>::empty() + zeros(n) =~= Seq::new(n, |i: int| 0u8));
}

proof fn lemma_contract_rest(p: Seq<u8>, e: nat, i: int, j: int)
    requires
        0 <= i,
        0 <= j,
        i + j <= p.len(),
    ensures
        contract_from(p.skip(i), e, j) == contract_from(p, e, i + j),
    decreases p.len() - i - j,
{
    lemma_zero_run_skip(p, i, j);
    lemma_zero_run(p, i + j);
    let r = zero_run(p, i + j);
    if i + j + r < p.len() {
        lemma_contract_rest(p, e, i, j + r + 1);
        assert(p.skip(i)[j + r] == p[i + j + r]);
    }
}

/// A byte other than zero is written as itself.
pub proof fn law_byte_written(b: u8, rest: Seq<u8>, e: nat)
    requires
        b != 0,
    ensures
        contract(seq![b] + rest, e) == seq![b] + contract(rest, e),
{
    let p = seq![b] + rest;
    assert(p[0] == b);
    lemma_contract_rest(p, e, 1, 0);
    assert(p.skip(1) =~= rest);
    assert(run_code(e, 0) =~= Seq::empty());
    assert(contract(p, e) =~= seq![b] + contract(rest, e));
}

/// A run of zeros is written as itself where it is shorter than an escape.
/// Otherwise `e` zeros and a supplement take in up to 255 more, and what is
/// left of the run is written as a run again.
pub proof fn law_run_written(r: nat, t: Seq<u8>, e: nat)
    requires
        1 <= e,
        0 < r,
        t.len() == 0 || t[0] != 0,
    ensures
        ({
            let p = Seq::new(r, |i: int| 0u8) + t;
            let esc = Seq::new(e, |i: int| 0u8);
            &&& r < e ==> contract(p, e) == Seq::new(r, |i: int| 0u8) + contract(t, e)
            &&& e <= r <= e + 255 && (r - e) % 2 == 0 ==> contract(p, e) == esc + seq![
                ((r - e) / 2) as u8,
            ] + contract(t, e)
            &&& e <= r <= e + 255 && (r - e) % 2 == 1 ==> contract(p, e) == esc + seq![
                (255 - (r - e) / 2) as u8,
            ] + contract(t, e)
            &&& r > e + 255 ==> contract(p, e) == esc + seq![128u8] + contract(
                Seq::new((r - e - 255) as nat, |i: int| 0u8) + t,
                e,
            )
        }),
{
    let p = Seq::new(r, |i: int| 0u8) + t;
    let esc = Seq::new(e, |i: int| 0u8);
    lemma_run_code_of(r, t, e);
    assert(p =~= zeros(r) + t);
    assert(zeros(e) =~= esc);
    if r < e {
        assert(zeros(r) =~= Seq::new(r, |i: int| 0u8));
    } else if r <= e + 255 {
        assert(run_code(e, 0) =~= Seq::empty());
        let s = supplement((r - e) as nat);
        assert(run_code(e, r) =~= esc + seq![s]);
        assert((esc + seq![s]) + contract(t, e) =~= esc + seq![s] + contract(t, e));
    } else {
        let left = (r - e - 255) as nat;
        lemma_run_code_of(left, t, e);
        assert(Seq::new(left, |i: int| 0u8) + t =~= zeros(left) + t);
        assert(run_code(e, r) =~= esc + seq![128u8] + run_code(e, left));
        assert((esc + seq![128u8] + run_code(e, left)) + contract(t, e) =~= esc + seq![128u8] + (
        run_code(e, left) + contract(t, e)));
    }
}

proof fn lemma_run_code_of(r: nat, t: Seq<u8>, e: nat)
    requires
        t.len() == 0 || t[0] != 0,
    ensures
        contract(zeros(r) + t, e) == run_code(e, r) + contract(t, e),
{
    let p = zeros(r) + t;
    lemma_leading_zeros(r, t);
    assert(run_code(e, 0) =~= Seq::empty());
    if t.len() > 0 {
        assert(p[r as int] == t[0]);
        lemma_contract_rest(p, e, r as int, 0);
        assert(p.skip(r as int) =~= t);
        lemma_contract_rest(p, e, r as int, 1);
        let rest = contract_from(p, e, r as int + 1);
        assert(contract_from(t, e, 1) == rest);
        assert(contract(t, e) =~= seq![t[0]] + rest);
        assert(contract(p, e) =~= run_code(e, r) + (seq![t[0]] + rest));
    } else {
        assert(contract(t, e) =~= Seq::empty());
        assert(contract(p, e) =~= run_code(e, r) + contract(t, e));
    }
}

/// An expansion uses bytes of its stream only.
pub proof fn lemma_expand_used(src: Seq<u8>, e: nat, n: nat)
    requires
        e >= 1,
    ensures
        expand(src, e, n) matches Ok(x) ==> 0 <= x.1 <= src.len(),
{
    lemma_expand_used_from(src, e, n, 0, Seq::empty());
}

proof fn lemma_expand_used_from(src: Seq<u8>, e: nat, n: nat, i: int, out: Seq<u8>)
    requires
        e >= 1,
        0 <= i <= src.len(),
    ensures
        expand_from(src, e, n, i, out) matches Ok(x) ==> i <= x.1 <= src.len(),
    decreases n - out.len(),
{
    lemma_zero_run(src, i);
    if out.len() < n {
        let run = least(zero_run(src, i), e);
        let room = (n - out.len()) as nat;
        if run == e {
            if i + e < src.len() {
                let d = zeros(least(e + padding(src[i + e]), room));
                lemma_expand_used_from(src, e, n, i + e + 1, out + d);
            }
        } else if run < room && i + run < src.len() {
            lemma_expand_used_from(
                src,
                e,
                n,
                i + run + 1,
                (out + zeros(run)).push(src[i + run]),
            );
        }
    }
}

} // verus!
