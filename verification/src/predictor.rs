//! The spatial predictor of planes whose first rows start from seeds.
//!
//! Row 0 is predicted from the left. The first sample of row 1 has a
//! prediction of its own, which depends on the colour family. Everything
//! else is predicted by the median of the left and the upper neighbour and
//! their gradient, which is kept as a signed number. The left neighbour of
//! a first column is the last sample of the row before.

use crate::predict;
use crate::predict::{FirstColRule, Predictor};
use vstd::prelude::*;

verus! {

/// Which prediction the first sample of row 1 has.
#[derive(Clone, Copy, Debug, PartialEq, Eq, Structural)]
pub enum PredictMode {
    /// The sample above it.
    Rgb,
    /// Zero: the left neighbour counts as zero, and the two others cancel.
    Yuv,
}

/// The middle one of three numbers.
pub open spec fn median(a: int, b: int, c: int) -> int {
    if a <= b {
        predict::clamp(c, a, b)
    } else {
        predict::clamp(c, b, a)
    }
}

/// The prediction of sample `i` of a plane of width `w`.
pub open spec fn predicted(mode: PredictMode, w: int, p: Seq<u8>, i: int) -> int {
    if i <= 0 {
        0
    } else if i < w {
        p[i - 1] as int
    } else if i == w {
        match mode {
            PredictMode::Rgb => p[0] as int,
            PredictMode::Yuv => 0,
        }
    } else {
        median(
            p[i - 1] as int,
            p[i - w] as int,
            p[i - 1] + p[i - w] - p[i - w - 1],
        )
    }
}

/// Sample `i` of the plane `p` is its prediction plus residual `i`.
pub open spec fn rebuilds_at(mode: PredictMode, w: int, r: Seq<u8>, p: Seq<u8>, i: int) -> bool {
    p[i] == (predicted(mode, w, p, i) + r[i]) % 256
}

/// `p` is the plane with the residuals `r`.
pub open spec fn rebuilds(mode: PredictMode, w: int, r: Seq<u8>, p: Seq<u8>) -> bool {
    &&& p.len() == r.len()
    &&& forall|i: int| 0 <= i < p.len() ==> #[trigger] rebuilds_at(mode, w, r, p, i)
}

/// Predictions look back only.
proof fn lemma_causal(mode: PredictMode, w: int, p: Seq<u8>, q: Seq<u8>, i: int)
    requires
        w > 0,
        forall|k: int| 0 <= k < i ==> p[k] == q[k],
    ensures
        predicted(mode, w, p, i) == predicted(mode, w, q, i),
{
}

/// Residuals determine their plane.
pub proof fn law_plane_is_unique(mode: PredictMode, w: int, r: Seq<u8>, p: Seq<u8>, q: Seq<u8>)
    requires
        w > 0,
        rebuilds(mode, w, r, p),
        rebuilds(mode, w, r, q),
    ensures
        p == q,
{
    lemma_unique_prefix(mode, w, r, p, q, p.len());
    assert(p =~= q);
}

proof fn lemma_unique_prefix(
    mode: PredictMode,
    w: int,
    r: Seq<u8>,
    p: Seq<u8>,
    q: Seq<u8>,
    n: nat,
)
    requires
        w > 0,
        rebuilds(mode, w, r, p),
        rebuilds(mode, w, r, q),
        n <= p.len(),
    ensures
        forall|k: int| 0 <= k < n ==> p[k] == q[k],
    decreases n,
{
    if n > 0 {
        lemma_unique_prefix(mode, w, r, p, q, (n - 1) as nat);
        lemma_causal(mode, w, p, q, n - 1);
        assert(rebuilds_at(mode, w, r, p, n - 1));
        assert(rebuilds_at(mode, w, r, q, n - 1));
    }
}

/// In the RGB family the prediction is the one of [`FirstColRule::B`].
pub proof fn law_rgb_mode_is_rule_b(w: int, p: Seq<u8>, i: int)
    requires
        w > 0,
        0 <= i,
    ensures
        predicted(PredictMode::Rgb, w, p, i) == predict::prediction(
            Predictor::Median(FirstColRule::B),
            w,
            p,
            i,
        ),
{
    let y = i / w;
    let x = i % w;
    vstd::arithmetic::div_mod::lemma_fundamental_div_mod(i, w);
    if i < w {
        vstd::arithmetic::div_mod::lemma_small_mod(i as nat, w as nat);
        assert(y == 0) by {
            vstd::arithmetic::div_mod::lemma_basic_div(i, w);
        }
    } else {
        assert(y >= 1) by (nonlinear_arith)
            requires
                i == w * y + x,
                x < w,
                i >= w,
                w > 0,
        ;
        assert((x == 0 && y == 1) == (i == w)) by (nonlinear_arith)
            requires
                i == w * y + x,
                0 <= x < w,
                y >= 1,
                w > 0,
        ;
    }
}

/// The middle one of three numbers.
pub fn median3(a: i32, b: i32, c: i32) -> (r: i32)
    ensures
        r == median(a as int, b as int, c as int),
{
    if a > b {
        if b > c {
            b
        } else if a > c {
            c
        } else {
            a
        }
    } else if a > c {
        a
    } else if b > c {
        c
    } else {
        b
    }
}

/// Turn residuals into samples.
pub fn unpredict_plane(data: &mut [u8], width: usize, height: usize, mode: PredictMode)
    requires
        old(data)@.len() == width * height,
    ensures
        rebuilds(mode, width as int, old(data)@, final(data)@),
{
    let ghost r = data@;
    let ghost w = width as int;
    if width == 0 || height == 0 {
        assert(width * height == 0) by (nonlinear_arith)
            requires
                width == 0 || height == 0,
        ;
        return;
    }
    assert(width <= width * height) by (nonlinear_arith)
        requires
            height >= 1,
            width >= 0,
    ;
    unpredict_first_row(data, width, Ghost(mode));
    if height == 1 {
        assert(data@.len() == width);
        return;
    }
    assert(2 * width <= width * height) by (nonlinear_arith)
        requires
            height >= 2,
            width >= 0,
    ;
    let row0_first: i32 = data[0] as i32;
    let l_seed: i32 = match mode {
        PredictMode::Rgb => row0_first,
        PredictMode::Yuv => 0,
    };
    let ghost before = data@;
    assert(data.len() == width * height);
    unpredict_row(data, width, width, 0, l_seed, row0_first);
    proof {
        lemma_row(mode, w, r, before, data@, w, l_seed, row0_first);
    }
    let mut y: usize = 2;
    let mut row_off: usize = 2 * width;
    while y < height
        invariant
            width > 0,
            w == width,
            2 <= y <= height,
            row_off == y * width,
            data.len() == width * height,
            r.len() == width * height,
            forall|i: int| 0 <= i < row_off ==> #[trigger] rebuilds_at(mode, w, r, data@, i),
            forall|i: int| row_off <= i < r.len() ==> #[trigger] data@[i] == r[i],
        decreases height - y,
    {
        proof {
            assert(y * width + width <= width * height) by (nonlinear_arith)
                requires
                    y + 1 <= height,
                    width > 0,
            ;
            assert(y * width >= 2 * width) by (nonlinear_arith)
                requires
                    y >= 2,
                    width > 0,
            ;
            assert((y + 1) * width == y * width + width) by (nonlinear_arith);
        }
        let top_off: usize = row_off - width;
        let l_seed: i32 = data[row_off - 1] as i32;
        let tl_seed: i32 = data[top_off - 1] as i32;
        let ghost before = data@;
        unpredict_row(data, row_off, width, top_off, l_seed, tl_seed);
        proof {
            lemma_row(mode, w, r, before, data@, row_off as int, l_seed, tl_seed);
        }
        row_off = row_off + width;
        y = y + 1;
    }
    assert(row_off == data@.len()) by (nonlinear_arith)
        requires
            row_off == y * width,
            y == height,
            data@.len() == width * height,
    ;
}

/// Turn the residuals of the first row into samples.
fn unpredict_first_row(data: &mut [u8], width: usize, Ghost(mode): Ghost<PredictMode>)
    requires
        0 < width <= old(data)@.len(),
    ensures
        final(data)@.len() == old(data)@.len(),
        forall|i: int|
            0 <= i < width ==> #[trigger] rebuilds_at(
                mode,
                width as int,
                old(data)@,
                final(data)@,
                i,
            ),
        forall|i: int|
            width <= i < old(data)@.len() ==> #[trigger] final(data)@[i] == old(data)@[i],
{
    let ghost r = data@;
    let mut left: u8 = 0;
    let mut x: usize = 0;
    while x < width
        invariant
            x <= width <= data@.len(),
            r == old(data)@,
            data@.len() == r.len(),
            x == 0 ==> left == 0,
            x > 0 ==> left == data@[x - 1],
            forall|i: int| 0 <= i < x ==> #[trigger] rebuilds_at(mode, width as int, r, data@, i),
            forall|i: int| x <= i < r.len() ==> #[trigger] data@[i] == r[i],
        decreases width - x,
    {
        let ghost before = data@;
        left = left.wrapping_add(data[x]);
        data[x] = left;
        proof {
            assert forall|i: int| 0 <= i < x + 1 implies #[trigger] rebuilds_at(
                mode,
                width as int,
                r,
                data@,
                i,
            ) by {
                if i < x {
                    assert(rebuilds_at(mode, width as int, r, before, i));
                    lemma_causal(mode, width as int, before, data@, i);
                }
            }
        }
        x = x + 1;
    }
}

/// The left neighbour of column `x` of a row at `row_off`.
spec fn left_of(p: Seq<u8>, row_off: int, l_seed: i32, x: int) -> int {
    if x == 0 {
        l_seed as int
    } else {
        p[row_off + x - 1] as int
    }
}

/// The top-left neighbour of column `x` below a row at `top_off`.
spec fn top_left_of(p: Seq<u8>, top_off: int, tl_seed: i32, x: int) -> int {
    if x == 0 {
        tl_seed as int
    } else {
        p[top_off + x - 1] as int
    }
}

/// Column `x` of a row is the median of its neighbours plus its residual.
spec fn row_rebuilds_at(
    before: Seq<u8>,
    after: Seq<u8>,
    row_off: int,
    top_off: int,
    l_seed: i32,
    tl_seed: i32,
    x: int,
) -> bool {
    let l = left_of(after, row_off, l_seed, x);
    let t = before[top_off + x] as int;
    let tl = top_left_of(before, top_off, tl_seed, x);
    after[row_off + x] == (median(l, t, l + t - tl) + before[row_off + x]) % 256
}

/// Turn the residuals of a row below another one into samples.
fn unpredict_row(
    data: &mut [u8],
    row_off: usize,
    width: usize,
    top_off: usize,
    l_seed: i32,
    tl_seed: i32,
)
    requires
        width > 0,
        row_off == top_off + width,
        row_off + width <= old(data)@.len(),
        0 <= l_seed <= 255,
        0 <= tl_seed <= 255,
    ensures
        final(data)@.len() == old(data)@.len(),
        forall|x: int|
            0 <= x < width ==> #[trigger] row_rebuilds_at(
                old(data)@,
                final(data)@,
                row_off as int,
                top_off as int,
                l_seed,
                tl_seed,
                x,
            ),
        forall|i: int|
            0 <= i < old(data)@.len() && !(row_off <= i < row_off + width)
                ==> #[trigger] final(data)@[i] == old(data)@[i],
{
    let ghost before = data@;
    let mut left: i32 = l_seed;
    let mut top_left: i32 = tl_seed;
    let mut x: usize = 0;
    while x < width
        invariant
            before == old(data)@,
            data@.len() == before.len(),
            row_off == top_off + width,
            row_off + width <= data.len(),
            x <= width,
            left == left_of(data@, row_off as int, l_seed, x as int),
            top_left == top_left_of(before, top_off as int, tl_seed, x as int),
            0 <= left <= 255,
            0 <= top_left <= 255,
            forall|k: int|
                0 <= k < x ==> #[trigger] row_rebuilds_at(
                    before,
                    data@,
                    row_off as int,
                    top_off as int,
                    l_seed,
                    tl_seed,
                    k,
                ),
            forall|i: int|
                0 <= i < before.len() && !(row_off <= i < row_off + x) ==> #[trigger] data@[i]
                    == before[i],
        decreases width - x,
    {
        let ghost prev = data@;
        assert(data@[top_off + x] == before[top_off + x]);
        assert(data@[row_off + x] == before[row_off + x]);
        let top: i32 = data[top_off + x] as i32;
        let gradient: i32 = left + top - top_left;
        let predicted: i32 = median3(left, top, gradient);
        let residual: u8 = data[row_off + x];
        let out: i32 = (predicted + residual as i32) % 256;
        data[row_off + x] = out as u8;
        proof {
            assert forall|k: int| 0 <= k < x + 1 implies #[trigger] row_rebuilds_at(
                before,
                data@,
                row_off as int,
                top_off as int,
                l_seed,
                tl_seed,
                k,
            ) by {
                if k < x {
                    assert(row_rebuilds_at(
                        before,
                        prev,
                        row_off as int,
                        top_off as int,
                        l_seed,
                        tl_seed,
                        k,
                    ));
                }
            }
        }
        top_left = top;
        left = out;
        x = x + 1;
    }
}

/// A rebuilt row continues the rebuilt rows above it.
proof fn lemma_row(
    mode: PredictMode,
    w: int,
    r: Seq<u8>,
    before: Seq<u8>,
    after: Seq<u8>,
    row_off: int,
    l_seed: i32,
    tl_seed: i32,
)
    requires
        0 < w <= row_off,
        row_off + w <= r.len(),
        before.len() == r.len(),
        after.len() == r.len(),
        forall|i: int| 0 <= i < row_off ==> #[trigger] rebuilds_at(mode, w, r, before, i),
        forall|i: int| row_off <= i < r.len() ==> #[trigger] before[i] == r[i],
        forall|x: int|
            0 <= x < w ==> #[trigger] row_rebuilds_at(
                before,
                after,
                row_off,
                row_off - w,
                l_seed,
                tl_seed,
                x,
            ),
        forall|i: int|
            0 <= i < r.len() && !(row_off <= i < row_off + w) ==> #[trigger] after[i] == before[i],
        if row_off == w {
            tl_seed == before[0] && l_seed == match mode {
                PredictMode::Rgb => before[0] as int,
                PredictMode::Yuv => 0,
            }
        } else {
            row_off > w && l_seed == before[row_off - 1] && tl_seed == before[row_off - w - 1]
        },
    ensures
        forall|i: int| 0 <= i < row_off + w ==> #[trigger] rebuilds_at(mode, w, r, after, i),
        forall|i: int| row_off + w <= i < r.len() ==> #[trigger] after[i] == r[i],
{
    assert forall|i: int| 0 <= i < row_off + w implies #[trigger] rebuilds_at(
        mode,
        w,
        r,
        after,
        i,
    ) by {
        if i < row_off {
            assert(rebuilds_at(mode, w, r, before, i));
            lemma_causal(mode, w, before, after, i);
        } else {
            let x = i - row_off;
            assert(row_rebuilds_at(before, after, row_off, row_off - w, l_seed, tl_seed, x));
            assert(after[i - w] == before[i - w]);
            if i > w {
                assert(after[i - w - 1] == before[i - w - 1]);
            }
        }
    }
}

/// A plane and its residuals: the first sample is its residual, the first
/// row adds up along itself, the second row starts from the first sample in
/// the RGB mode and from nothing in the YUV mode, and every later sample adds
/// its residual to the middle one of its left neighbour, its upper neighbour
/// and their sum less the one between them.
pub proof fn law_rebuilt_plane(mode: PredictMode, w: int, r: Seq<u8>, p: Seq<u8>, i: int)
    requires
        rebuilds(mode, w, r, p),
        w > 0,
        0 <= i < p.len(),
    ensures
        ({
            let v = predict::without_residual(p, r, i);
            &&& p.len() == r.len()
            &&& i == 0 ==> v == 0
            &&& 0 < i < w ==> v == p[i - 1]
            &&& i == w ==> v == if mode is Rgb {
                p[0] as int
            } else {
                0
            }
            &&& i > w ==> predict::is_middle(
                v,
                p[i - 1] as int,
                p[i - w] as int,
                p[i - 1] + p[i - w] - p[i - w - 1],
            )
        }),
{
    assert(rebuilds_at(mode, w, r, p, i));
}

/// The median is the middle one of three numbers.
pub proof fn law_median(a: int, b: int, c: int)
    ensures
        predict::is_middle(median(a, b, c), a, b, c),
{
}

} // verus!
