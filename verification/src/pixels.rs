//! Layouts of frame buffers: interleaved components, packed 4:2:2, and
//! planes at half resolution.

use crate::digits;
use crate::predict;
use vstd::prelude::*;

verus! {

// ---------------------------------------------------------------------
// Interleaved components
// ---------------------------------------------------------------------

/// Three components, interleaved.
pub open spec fn interleaved3(b: Seq<u8>, g: Seq<u8>, r: Seq<u8>) -> Seq<u8> {
    Seq::new(
        3 * b.len(),
        |i: int|
            if i % 3 == 0 {
                b[i / 3]
            } else if i % 3 == 1 {
                g[i / 3]
            } else {
                r[i / 3]
            },
    )
}

/// Four components, interleaved.
pub open spec fn interleaved4(b: Seq<u8>, g: Seq<u8>, r: Seq<u8>, a: Seq<u8>) -> Seq<u8> {
    Seq::new(
        4 * b.len(),
        |i: int|
            if i % 4 == 0 {
                b[i / 4]
            } else if i % 4 == 1 {
                g[i / 4]
            } else if i % 4 == 2 {
                r[i / 4]
            } else {
                a[i / 4]
            },
    )
}

/// Every third sample from `k` on.
pub open spec fn component3(px: Seq<u8>, k: int) -> Seq<u8> {
    Seq::new(px.len() / 3, |i: int| px[3 * i + k])
}

/// Every fourth sample from `k` on.
pub open spec fn component4(px: Seq<u8>, k: int) -> Seq<u8> {
    Seq::new(px.len() / 4, |i: int| px[4 * i + k])
}

/// Taking three components apart and interleaving them changes nothing.
pub proof fn law_interleave3(px: Seq<u8>)
    requires
        px.len() % 3 == 0,
    ensures
        interleaved3(component3(px, 0), component3(px, 1), component3(px, 2)) == px,
{
    let q = interleaved3(component3(px, 0), component3(px, 1), component3(px, 2));
    assert forall|i: int| 0 <= i < px.len() implies q[i] == px[i] by {
        assert(i == 3 * (i / 3) + i % 3);
    }
    assert(q =~= px);
}

/// Taking four components apart and interleaving them changes nothing.
pub proof fn law_interleave4(px: Seq<u8>)
    requires
        px.len() % 4 == 0,
    ensures
        interleaved4(
            component4(px, 0),
            component4(px, 1),
            component4(px, 2),
            component4(px, 3),
        ) == px,
{
    let q = interleaved4(
        component4(px, 0),
        component4(px, 1),
        component4(px, 2),
        component4(px, 3),
    );
    assert forall|i: int| 0 <= i < px.len() implies q[i] == px[i] by {
        assert(i == 4 * (i / 4) + i % 4);
    }
    assert(q =~= px);
}

/// Interleave three components.
pub fn interleave3(b: &[u8], g: &[u8], r: &[u8]) -> (out: Vec<u8>)
    requires
        b@.len() == g@.len(),
        b@.len() == r@.len(),
        3 * b@.len() <= usize::MAX,
    ensures
        out@ == interleaved3(b@, g@, r@),
{
    let n: usize = b.len();
    let mut out: Vec<u8> = Vec::with_capacity(3 * n);
    let mut i: usize = 0;
    while i < n
        invariant
            i <= n,
            n == b@.len(),
            n == g@.len(),
            n == r@.len(),
            out@.len() == 3 * i,
            forall|k: int| 0 <= k < 3 * i ==> #[trigger] out@[k] == interleaved3(b@, g@, r@)[k],
        decreases n - i,
    {
        out.push(b[i]);
        out.push(g[i]);
        out.push(r[i]);
        i = i + 1;
    }
    assert(out@ =~= interleaved3(b@, g@, r@));
    out
}

/// Interleave four components.
pub fn interleave4(b: &[u8], g: &[u8], r: &[u8], a: &[u8]) -> (out: Vec<u8>)
    requires
        b@.len() == g@.len(),
        b@.len() == r@.len(),
        b@.len() == a@.len(),
        4 * b@.len() <= usize::MAX,
    ensures
        out@ == interleaved4(b@, g@, r@, a@),
{
    let n: usize = b.len();
    let mut out: Vec<u8> = Vec::with_capacity(4 * n);
    let mut i: usize = 0;
    while i < n
        invariant
            i <= n,
            n == b@.len(),
            n == g@.len(),
            n == r@.len(),
            n == a@.len(),
            out@.len() == 4 * i,
            forall|k: int|
                0 <= k < 4 * i ==> #[trigger] out@[k] == interleaved4(b@, g@, r@, a@)[k],
        decreases n - i,
    {
        out.push(b[i]);
        out.push(g[i]);
        out.push(r[i]);
        out.push(a[i]);
        i = i + 1;
    }
    assert(out@ =~= interleaved4(b@, g@, r@, a@));
    out
}

/// Interleave three components with an opaque fourth.
pub fn interleave_opaque(b: &[u8], g: &[u8], r: &[u8]) -> (out: Vec<u8>)
    requires
        b@.len() == g@.len(),
        b@.len() == r@.len(),
        4 * b@.len() <= usize::MAX,
    ensures
        out@ == interleaved4(b@, g@, r@, digits::repeat(0xff, b@.len())),
{
    let n: usize = b.len();
    let ghost a = digits::repeat(0xff, b@.len());
    let mut out: Vec<u8> = Vec::with_capacity(4 * n);
    let mut i: usize = 0;
    while i < n
        invariant
            i <= n,
            n == b@.len(),
            n == g@.len(),
            n == r@.len(),
            a == digits::repeat(0xff, b@.len()),
            out@.len() == 4 * i,
            forall|k: int|
                0 <= k < 4 * i ==> #[trigger] out@[k] == interleaved4(b@, g@, r@, a)[k],
        decreases n - i,
    {
        out.push(b[i]);
        out.push(g[i]);
        out.push(r[i]);
        out.push(0xff);
        i = i + 1;
    }
    assert(out@ =~= interleaved4(b@, g@, r@, a));
    out
}

/// Take one of three interleaved components.
pub fn take_component3(px: &[u8], k: usize) -> (out: Vec<u8>)
    requires
        k < 3,
        px@.len() % 3 == 0,
    ensures
        out@ == component3(px@, k as int),
{
    let n: usize = px.len() / 3;
    let mut out: Vec<u8> = Vec::with_capacity(n);
    let mut i: usize = 0;
    while i < n
        invariant
            k < 3,
            i <= n,
            px.len() == 3 * n,
            out@.len() == i,
            forall|j: int| 0 <= j < i ==> #[trigger] out@[j] == px@[3 * j + k],
        decreases n - i,
    {
        out.push(px[3 * i + k]);
        i = i + 1;
    }
    assert(out@ =~= component3(px@, k as int));
    out
}

/// Take one of four interleaved components.
pub fn take_component4(px: &[u8], k: usize) -> (out: Vec<u8>)
    requires
        k < 4,
        px@.len() % 4 == 0,
    ensures
        out@ == component4(px@, k as int),
{
    let n: usize = px.len() / 4;
    let mut out: Vec<u8> = Vec::with_capacity(n);
    let mut i: usize = 0;
    while i < n
        invariant
            k < 4,
            i <= n,
            px.len() == 4 * n,
            out@.len() == i,
            forall|j: int| 0 <= j < i ==> #[trigger] out@[j] == px@[4 * j + k],
        decreases n - i,
    {
        out.push(px[4 * i + k]);
        i = i + 1;
    }
    assert(out@ =~= component4(px@, k as int));
    out
}

// ---------------------------------------------------------------------
// Packed 4:2:2
// ---------------------------------------------------------------------

/// The chroma sample that goes with pixel `i` of a packed buffer: U with
/// even columns, V with odd ones. A last column without a partner has
/// neutral chroma.
pub open spec fn chroma_of(u: Seq<u8>, v: Seq<u8>, w: int, i: int) -> u8 {
    let x = i % w;
    let at = (i / w) * (w / 2) + x / 2;
    if x % 2 == 1 {
        v[at]
    } else if x + 1 < w {
        u[at]
    } else {
        0x80
    }
}

/// Luma and chroma planes of width `w` and `w / 2`, packed.
pub open spec fn packed_yuy2(y: Seq<u8>, u: Seq<u8>, v: Seq<u8>, w: int) -> Seq<u8> {
    Seq::new(
        2 * y.len(),
        |i: int|
            if i % 2 == 0 {
                y[i / 2]
            } else {
                chroma_of(u, v, w, i / 2)
            },
    )
}

/// The luma plane of a packed buffer.
pub open spec fn luma_plane(px: Seq<u8>) -> Seq<u8> {
    Seq::new(px.len() / 2, |i: int| px[2 * i])
}

/// The chroma plane of a packed buffer: U for `odd == 0`, V for `odd == 1`.
pub open spec fn chroma_plane(px: Seq<u8>, w: int, h: int, odd: int) -> Seq<u8> {
    Seq::new(
        ((w / 2) * h) as nat,
        |k: int| px[2 * ((k / (w / 2)) * w + 2 * (k % (w / 2)) + odd) + 1],
    )
}

/// A last column without a partner has neutral chroma.
pub open spec fn neutral_tails(px: Seq<u8>, w: int) -> bool {
    forall|i: int|
        0 <= i < px.len() / 2 && w % 2 == 1 && i % w == w - 1 ==> #[trigger] px[2 * i + 1] == 0x80
}

/// The chroma index of a pixel, taken apart again.
proof fn lemma_chroma_index(w: int, h: int, i: int)
    requires
        w >= 2,
        0 <= i < w * h,
        i % w < 2 * (w / 2),
    ensures
        ({
            let cw = w / 2;
            let k = (i / w) * cw + (i % w) / 2;
            &&& 0 <= k < cw * h
            &&& k / cw == i / w
            &&& k % cw == (i % w) / 2
        }),
{
    let cw = w / 2;
    let row = i / w;
    let x = i % w;
    let k = row * cw + x / 2;
    vstd::arithmetic::div_mod::lemma_fundamental_div_mod(i, w);
    assert(row >= 0) by (nonlinear_arith)
        requires
            i == w * row + x,
            x < w,
            i >= 0,
            w > 0,
    ;
    assert(row < h) by (nonlinear_arith)
        requires
            i == w * row + x,
            x >= 0,
            i < w * h,
            w > 0,
    ;
    predict::lemma_position(k, cw, row, x / 2);
    assert(k < cw * h) by (nonlinear_arith)
        requires
            k == row * cw + x / 2,
            x / 2 < cw,
            row + 1 <= h,
            cw > 0,
    ;
    assert(k >= 0) by (nonlinear_arith)
        requires
            k == row * cw + x / 2,
            x / 2 >= 0,
            row >= 0,
            cw > 0,
    ;
}

/// Taking a packed buffer apart and packing it again changes nothing, as
/// long as chroma without a place is neutral.
pub proof fn law_pack_yuy2(px: Seq<u8>, w: int, h: int)
    requires
        w > 0,
        h >= 0,
        px.len() == 2 * (w * h),
        neutral_tails(px, w),
    ensures
        packed_yuy2(
            luma_plane(px),
            chroma_plane(px, w, h, 0),
            chroma_plane(px, w, h, 1),
            w,
        ) == px,
{
    let y = luma_plane(px);
    let u = chroma_plane(px, w, h, 0);
    let v = chroma_plane(px, w, h, 1);
    let q = packed_yuy2(y, u, v, w);
    assert forall|j: int| 0 <= j < px.len() implies q[j] == px[j] by {
        let i = j / 2;
        if j % 2 == 1 {
            assert(j == 2 * i + 1);
            let x = i % w;
            vstd::arithmetic::div_mod::lemma_fundamental_div_mod(i, w);
            assert(w * (i / w) == (i / w) * w) by (nonlinear_arith);
            if x < 2 * (w / 2) {
                lemma_chroma_index(w, h, i);
            } else {
                assert(x == w - 1 && w % 2 == 1);
            }
        }
    }
    assert(q =~= px);
}

/// Pack luma and chroma planes.
pub fn pack_yuy2(y: &[u8], u: &[u8], v: &[u8], width: usize, height: usize) -> (out: Vec<u8>)
    requires
        y@.len() == width * height,
        u@.len() == (width / 2) * height,
        v@.len() == (width / 2) * height,
        2 * y@.len() <= usize::MAX,
    ensures
        out@ == packed_yuy2(y@, u@, v@, width as int),
{
    let n: usize = y.len();
    let ghost w = width as int;
    let cw: usize = width / 2;
    let mut out: Vec<u8> = Vec::with_capacity(2 * n);
    let mut i: usize = 0;
    let mut row: usize = 0;
    let mut x: usize = 0;
    let mut c_row: usize = 0;
    assert(u.len() == u@.len() && v.len() == v@.len());
    proof {
        if n > 0 {
            assert(width > 0) by (nonlinear_arith)
                requires
                    width * height > 0,
                    width >= 0,
            ;
        }
    }
    while i < n
        invariant
            n > 0 ==> width > 0,
            width > 0 ==> x < width,
            i <= n,
            n == y@.len(),
            n == width * height,
            w == width,
            cw == width / 2,
            u.len() == cw * height,
            v.len() == cw * height,
            i == row * width + x,
            c_row == row * cw,
            out@.len() == 2 * i,
            forall|k: int|
                0 <= k < 2 * i ==> #[trigger] out@[k] == packed_yuy2(y@, u@, v@, w)[k],
        decreases n - i,
    {
        proof {
            predict::lemma_position(i as int, w, row as int, x as int);
            if x < 2 * (w / 2) {
                lemma_chroma_index(w, height as int, i as int);
            }
        }
        let chroma: u8 = if x % 2 == 1 {
            v[c_row + x / 2]
        } else if x + 1 < width {
            u[c_row + x / 2]
        } else {
            0x80
        };
        assert(chroma == chroma_of(u@, v@, w, i as int));
        out.push(y[i]);
        out.push(chroma);
        proof {
            assert((2 * i) % 2 == 0 && (2 * i) / 2 == i as int);
            assert((2 * i + 1) % 2 == 1 && (2 * i + 1) / 2 == i as int);
            assert forall|k: int| 0 <= k < 2 * (i + 1) implies #[trigger] out@[k] == packed_yuy2(
                y@,
                u@,
                v@,
                w,
            )[k] by {
                if k == 2 * i {
                } else if k == 2 * i + 1 {
                }
            }
        }
        i = i + 1;
        x = x + 1;
        if x == width {
            proof {
                lemma_next_row(row as int, width as int, cw as int, height as int, i as int);
            }
            x = 0;
            row = row + 1;
            c_row = c_row + cw;
        }
    }
    assert(out@ =~= packed_yuy2(y@, u@, v@, w));
    out
}

/// The bookkeeping of a step to the next row.
proof fn lemma_next_row(row: int, w: int, cw: int, h: int, i: int)
    requires
        w > 0,
        0 <= row,
        0 <= cw <= w,
        i == row * w + w,
        i <= w * h,
    ensures
        (row + 1) * w == i,
        (row + 1) * cw == row * cw + cw,
        row + 1 <= i,
        row * cw + cw <= i,
        row + 1 <= h,
{
    assert((row + 1) * w == row * w + w) by (nonlinear_arith);
    assert((row + 1) * cw == row * cw + cw) by (nonlinear_arith);
    assert(row + 1 <= (row + 1) * w) by (nonlinear_arith)
        requires
            w > 0,
            row >= 0,
    ;
    assert((row + 1) * cw <= (row + 1) * w) by (nonlinear_arith)
        requires
            cw <= w,
            row >= 0,
    ;
    assert(row + 1 <= h) by (nonlinear_arith)
        requires
            (row + 1) * w <= w * h,
            w > 0,
    ;
}

/// Take the luma plane of a packed buffer.
pub fn take_luma(px: &[u8]) -> (out: Vec<u8>)
    requires
        px@.len() % 2 == 0,
    ensures
        out@ == luma_plane(px@),
{
    let n: usize = px.len() / 2;
    let mut out: Vec<u8> = Vec::with_capacity(n);
    let mut i: usize = 0;
    while i < n
        invariant
            i <= n,
            px.len() == 2 * n,
            out@.len() == i,
            forall|j: int| 0 <= j < i ==> #[trigger] out@[j] == px@[2 * j],
        decreases n - i,
    {
        out.push(px[2 * i]);
        i = i + 1;
    }
    assert(out@ =~= luma_plane(px@));
    out
}

/// Take a chroma plane of a packed buffer: U for `odd == 0`, V for
/// `odd == 1`.
pub fn take_chroma(px: &[u8], width: usize, height: usize, odd: usize) -> (out: Vec<u8>)
    requires
        odd <= 1,
        px@.len() == 2 * (width * height),
    ensures
        out@ == chroma_plane(px@, width as int, height as int, odd as int),
{
    let cw: usize = width / 2;
    let ghost w = width as int;
    let ghost h = height as int;
    let mut out: Vec<u8> = Vec::new();
    let mut row: usize = 0;
    let mut base: usize = 0;
    assert(px.len() == px@.len());
    while row < height
        invariant
            odd <= 1,
            cw == width / 2,
            w == width,
            h == height,
            px.len() == 2 * (w * h),
            row <= height,
            base == row * width,
            out@.len() == row * cw,
            forall|k: int|
                0 <= k < row * cw ==> #[trigger] out@[k] == chroma_plane(px@, w, h, odd as int)[k],
        decreases height - row,
    {
        let mut j: usize = 0;
        proof {
            assert(row * w + w <= w * h) by (nonlinear_arith)
                requires
                    row + 1 <= h,
                    w >= 0,
            ;
        }
        while j < cw
            invariant
                odd <= 1,
                cw == width / 2,
                w == width,
                h == height,
                px.len() == 2 * (w * h),
                row < height,
                base == row * width,
                base + w <= w * h,
                j <= cw,
                out@.len() == row * cw + j,
                forall|k: int|
                    0 <= k < row * cw + j ==> #[trigger] out@[k] == chroma_plane(
                        px@,
                        w,
                        h,
                        odd as int,
                    )[k],
            decreases cw - j,
        {
            let at: usize = 2 * (base + 2 * j + odd) + 1;
            proof {
                let k = row * cw + j;
                predict::lemma_position(k, cw as int, row as int, j as int);
                assert(k < cw * h) by (nonlinear_arith)
                    requires
                        k == row * cw + j,
                        j < cw,
                        row + 1 <= h,
                ;
                assert(chroma_plane(px@, w, h, odd as int)[k] == px@[at as int]);
            }
            out.push(px[at]);
            j = j + 1;
        }
        proof {
            assert((row + 1) * cw == row * cw + cw) by (nonlinear_arith);
            assert((row + 1) * w == row * w + w) by (nonlinear_arith);
        }
        row = row + 1;
        base = base + width;
    }
    proof {
        assert(row * cw == cw * h) by (nonlinear_arith)
            requires
                row == h,
        ;
    }
    assert(out@ =~= chroma_plane(px@, w, h, odd as int));
    out
}

// ---------------------------------------------------------------------
// Half resolution
// ---------------------------------------------------------------------

/// A plane of width `w` with every sample turned into a block of two by two.
pub open spec fn upscaled(s: Seq<u8>, w: int) -> Seq<u8> {
    Seq::new(
        4 * s.len(),
        |i: int| s[((i / (2 * w)) / 2) * w + (i % (2 * w)) / 2],
    )
}

/// Every other sample of every other row of a plane of width `w` and height
/// `h`.
pub open spec fn downscaled(p: Seq<u8>, w: int, h: int) -> Seq<u8> {
    Seq::new(
        ((w / 2) * (h / 2)) as nat,
        |i: int| p[(2 * (i / (w / 2))) * w + 2 * (i % (w / 2))],
    )
}

/// A sample of a plane that was scaled up is the one of its block.
pub proof fn lemma_upscaled_sample(s: Seq<u8>, w: int, h: int, y: int, x: int)
    requires
        s.len() == w * h,
        0 <= y < 2 * h,
        0 <= x < 2 * w,
    ensures
        0 <= y * (2 * w) + x < upscaled(s, w).len(),
        upscaled(s, w)[y * (2 * w) + x] == s[(y / 2) * w + x / 2],
{
    predict::lemma_position(y * (2 * w) + x, 2 * w, y, x);
    assert(0 <= y * (2 * w) + x < 4 * (w * h)) by (nonlinear_arith)
        requires
            0 <= y,
            y + 1 <= 2 * h,
            0 <= x < 2 * w,
    ;
}

/// A sample of a plane that was scaled down is the one at twice its place.
pub proof fn lemma_downscaled_sample(p: Seq<u8>, w: int, h: int, y: int, x: int)
    requires
        0 <= y < h / 2,
        0 <= x < w / 2,
    ensures
        0 <= y * (w / 2) + x < downscaled(p, w, h).len(),
        downscaled(p, w, h)[y * (w / 2) + x] == p[(2 * y) * w + 2 * x],
{
    let a = w / 2;
    let b = h / 2;
    predict::lemma_position(y * a + x, a, y, x);
    assert(0 <= y * a + x < a * b) by (nonlinear_arith)
        requires
            0 <= y,
            y + 1 <= b,
            0 <= x < a,
    ;
}

/// Scaling up and down again changes nothing.
pub proof fn law_downscale_upscaled(s: Seq<u8>, w: int, h: int)
    requires
        w >= 0,
        h >= 0,
        s.len() == w * h,
    ensures
        downscaled(upscaled(s, w), 2 * w, 2 * h) == s,
{
    let d = downscaled(upscaled(s, w), 2 * w, 2 * h);
    assert((2 * w) / 2 == w && (2 * h) / 2 == h);
    assert(d.len() == s.len());
    assert forall|i: int| 0 <= i < s.len() implies d[i] == s[i] by {
        assert(w > 0) by (nonlinear_arith)
            requires
                0 <= i < w * h,
                w >= 0,
        ;
        let y = i / w;
        let x = i % w;
        vstd::arithmetic::div_mod::lemma_fundamental_div_mod(i, w);
        assert(y >= 0) by (nonlinear_arith)
            requires
                i == w * y + x,
                x < w,
                i >= 0,
                w > 0,
        ;
        assert(y < h) by (nonlinear_arith)
            requires
                i == w * y + x,
                x >= 0,
                i < w * h,
                w > 0,
        ;
        let j = (2 * y) * (2 * w) + 2 * x;
        predict::lemma_position(j, 2 * w, 2 * y, 2 * x);
        assert(j < 4 * (w * h)) by (nonlinear_arith)
            requires
                j == (2 * y) * (2 * w) + 2 * x,
                x < w,
                y + 1 <= h,
                x >= 0,
        ;
        assert(j >= 0);
        assert((2 * y) / 2 == y && (2 * x) / 2 == x);
        assert(y * w == w * y) by (nonlinear_arith);
        assert(d[i] == upscaled(s, w)[j]);
    }
    assert(d =~= s);
}

/// Turn every sample of a plane into a block of two by two.
pub fn upscale_plane_2x(src: &[u8], src_w: usize, src_h: usize) -> (out: Vec<u8>)
    requires
        src@.len() == src_w * src_h,
        4 * src@.len() <= usize::MAX,
    ensures
        out@ == upscaled(src@, src_w as int),
{
    let n: usize = src.len();
    let total: usize = 4 * n;
    let ghost w = src_w as int;
    let mut out: Vec<u8> = Vec::with_capacity(total);
    let mut i: usize = 0;
    let mut y: usize = 0;
    let mut x: usize = 0;
    let mut base: usize = 0;
    proof {
        assert((0int / 2) * w == 0) by (nonlinear_arith);
        if n > 0 {
            assert(src_w > 0) by (nonlinear_arith)
                requires
                    src_w * src_h > 0,
                    src_w >= 0,
            ;
            assert(src_h > 0) by (nonlinear_arith)
                requires
                    src_w * src_h > 0,
                    src_h >= 0,
            ;
            assert(src_w <= src_w * src_h) by (nonlinear_arith)
                requires
                    src_h > 0,
                    src_w >= 0,
            ;
        }
    }
    while i < total
        invariant
            n > 0 ==> 0 < src_w <= n,
            n == src@.len(),
            n == src_w * src_h,
            total == 4 * n,
            w == src_w,
            i <= total,
            n > 0 ==> x < 2 * src_w,
            i == y * (2 * w) + x,
            base == (y as int / 2) * w,
            out@.len() == i,
            forall|k: int| 0 <= k < i ==> #[trigger] out@[k] == upscaled(src@, w)[k],
        decreases total - i,
    {
        proof {
            predict::lemma_position(i as int, 2 * w, y as int, x as int);
            lemma_up_index(w, src_h as int, y as int, x as int);
        }
        out.push(src[base + x / 2]);
        i = i + 1;
        x = x + 1;
        if x == 2 * src_w {
            proof {
                assert((y + 1) * (2 * w) == y * (2 * w) + 2 * w) by (nonlinear_arith);
                assert(y + 1 <= (y + 1) * (2 * w)) by (nonlinear_arith)
                    requires
                        w > 0,
                        y >= 0,
                ;
                let half = y as int / 2;
                assert((half + 1) * w == half * w + w) by (nonlinear_arith);
            }
            x = 0;
            if y % 2 == 1 {
                base = base + src_w;
            }
            y = y + 1;
        }
    }
    assert(out@ =~= upscaled(src@, w));
    out
}

proof fn lemma_up_index(w: int, h: int, y: int, x: int)
    requires
        w > 0,
        0 <= x < 2 * w,
        0 <= y,
        y * (2 * w) + x < 4 * (w * h),
    ensures
        (y / 2) * w + x / 2 < w * h,
        (y / 2) * w + w <= w * h,
        0 <= (y / 2) * w,
{
    assert(y < 2 * h) by (nonlinear_arith)
        requires
            y * (2 * w) + x < 4 * (w * h),
            x >= 0,
            w > 0,
    ;
    let half = y / 2;
    assert(half * w + w <= w * h) by (nonlinear_arith)
        requires
            half + 1 <= h,
            w > 0,
    ;
    assert(0 <= half * w) by (nonlinear_arith)
        requires
            half >= 0,
            w > 0,
    ;
}

/// Append every other sample of every other row of the plane at `start`.
pub fn downscale_into(out: &mut Vec<u8>, px: &[u8], start: usize, width: usize, height: usize)
    requires
        start + width * height <= px@.len(),
    ensures
        final(out)@ == old(out)@ + downscaled(
            px@.subrange(start as int, start + width * height),
            width as int,
            height as int,
        ),
{
    let hw: usize = width / 2;
    let hh: usize = height / 2;
    let ghost w = width as int;
    let ghost h = height as int;
    let ghost p = px@.subrange(start as int, start + width * height);
    let ghost d = downscaled(p, w, h);
    let ghost out0 = out@;
    let mut row: usize = 0;
    let mut base: usize = start;
    assert(px.len() == px@.len());
    while row < hh
        invariant
            hw == width / 2,
            hh == height / 2,
            w == width,
            h == height,
            start + w * h <= px.len(),
            p == px@.subrange(start as int, start + w * h),
            d == downscaled(p, w, h),
            row <= hh,
            base == start + (2 * row) * w,
            out@.len() == out0.len() + row * hw,
            forall|k: int| 0 <= k < out0.len() ==> #[trigger] out@[k] == out0[k],
            forall|k: int|
                out0.len() <= k < out0.len() + row * hw ==> #[trigger] out@[k] == d[k
                    - out0.len()],
        decreases hh - row,
    {
        let mut j: usize = 0;
        proof {
            assert((2 * row) * w + 2 * w <= w * h) by (nonlinear_arith)
                requires
                    2 * row + 2 <= h,
                    w >= 0,
            ;
            assert((2 * row) * w >= 0) by (nonlinear_arith)
                requires
                    row >= 0,
                    w >= 0,
            ;
        }
        while j < hw
            invariant
                hw == width / 2,
                hh == height / 2,
                w == width,
                h == height,
                start + w * h <= px.len(),
                p == px@.subrange(start as int, start + w * h),
                d == downscaled(p, w, h),
                row < hh,
                base == start + (2 * row) * w,
                0 <= (2 * row) * w,
                (2 * row) * w + 2 * w <= w * h,
                j <= hw,
                out@.len() == out0.len() + row * hw + j,
                forall|k: int| 0 <= k < out0.len() ==> #[trigger] out@[k] == out0[k],
                forall|k: int|
                    out0.len() <= k < out0.len() + row * hw + j ==> #[trigger] out@[k] == d[k
                        - out0.len()],
            decreases hw - j,
        {
            proof {
                let k = row * hw + j;
                predict::lemma_position(k, hw as int, row as int, j as int);
                assert(k < hw * hh) by (nonlinear_arith)
                    requires
                        k == row * hw + j,
                        j < hw,
                        row + 1 <= hh,
                ;
                assert(d[k] == p[(2 * row) * w + 2 * j]);
            }
            out.push(px[base + 2 * j]);
            j = j + 1;
        }
        proof {
            assert((row + 1) * hw == row * hw + hw) by (nonlinear_arith);
            assert((2 * (row + 1)) * w == (2 * row) * w + 2 * w) by (nonlinear_arith);
        }
        row = row + 1;
        base = base + 2 * width;
    }
    proof {
        assert(row * hw == hw * hh) by (nonlinear_arith)
            requires
                row == hh,
        ;
    }
    assert(out@ =~= out0 + d);
}

} // verus!
