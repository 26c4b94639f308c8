//! Spatial prediction and cross-plane decorrelation.
//!
//! A plane is stored as residuals: what is left of each sample when the
//! prediction from the samples before it is taken away, modulo 256. The
//! first row predicts from the left neighbour; later rows predict the median
//! of the left neighbour, the top neighbour and the gradient of the two.
//! Neighbours are taken in linear memory: left of the first column lies the
//! last column of the row above. The variants differ at the first column and
//! in how the gradient is computed.

use vstd::prelude::*;

verus! {

/// How the first column of the second and later rows is predicted.
#[derive(Debug, Copy, Clone, PartialEq, Eq, Structural)]
pub enum FirstColRule {
    /// From the top neighbour, in every row.
    A,
    /// From the top neighbour in the second row, by the median afterwards.
    B,
    /// From the left neighbour in the second row, by the median afterwards.
    Yuv,
}

/// All predictors of the codec.
pub enum Predictor {
    /// The signed-gradient median with a rule for the first column.
    Median(FirstColRule),
    /// As the median, with a given top-left neighbour for the first sample
    /// of the second row.
    Seeded(u8),
    /// The predictor of the packed 4:2:2 planes: the gradient wraps, the
    /// first samples of the second row (four of luma, two of chroma) predict
    /// from the left, and luma stores its second sample as it is.
    Packed {
        luma: bool,
    },
}

/// The middle one of `lo`, `hi` and `v`, for `lo <= hi`.
pub open spec fn clamp(v: int, lo: int, hi: int) -> int {
    if v < lo {
        lo
    } else if v > hi {
        hi
    } else {
        v
    }
}

/// The gradient of three neighbours, clamped to the range of the first two.
pub open spec fn med(l: u8, t: u8, tl: u8) -> u8 {
    if l <= t {
        clamp(l + t - tl, l as int, t as int) as u8
    } else {
        clamp(l + t - tl, t as int, l as int) as u8
    }
}

/// As [`med`], with the gradient taken modulo 256 first.
pub open spec fn med_wrap(l: u8, t: u8, tl: u8) -> u8 {
    if l <= t {
        clamp((l + t - tl) % 256, l as int, t as int) as u8
    } else {
        clamp((l + t - tl) % 256, t as int, l as int) as u8
    }
}

/// The prediction of sample `i` of a plane of width `w`. It depends on the
/// samples before `i` only.
pub open spec fn prediction(m: Predictor, w: int, p: Seq<u8>, i: int) -> u8 {
    let x = i % w;
    let y = i / w;
    if i <= 0 {
        0
    } else if y == 0 {
        if m == (Predictor::Packed { luma: true }) && x == 1 {
            0
        } else {
            p[i - 1]
        }
    } else {
        let l = p[i - 1];
        let t = p[i - w];
        let tl = p[i - w - 1];
        match m {
            Predictor::Median(rule) => if x == 0 && rule == FirstColRule::A {
                t
            } else if x == 0 && y == 1 {
                if rule == FirstColRule::Yuv {
                    l
                } else {
                    t
                }
            } else {
                med(l, t, tl)
            },
            Predictor::Seeded(seed) => if x == 0 && y == 1 {
                med(l, t, seed)
            } else {
                med(l, t, tl)
            },
            Predictor::Packed { luma } => if y == 1 && x < if luma {
                4int
            } else {
                2int
            } {
                l
            } else {
                med_wrap(l, t, tl)
            },
        }
    }
}

/// The residuals of a plane.
pub open spec fn residuals(m: Predictor, w: int, p: Seq<u8>) -> Seq<u8> {
    Seq::new(p.len(), |i: int| ((p[i] - prediction(m, w, p, i)) % 256) as u8)
}

/// The first `n` samples of the plane with the given residuals.
pub open spec fn rebuilt_to(m: Predictor, w: int, r: Seq<u8>, n: nat) -> Seq<u8>
    decreases n,
{
    if n == 0 {
        Seq::empty()
    } else {
        let head = rebuilt_to(m, w, r, (n - 1) as nat);
        head.push(((r[n - 1] + prediction(m, w, head, n - 1)) % 256) as u8)
    }
}

/// The plane with the given residuals.
pub open spec fn rebuilt(m: Predictor, w: int, r: Seq<u8>) -> Seq<u8> {
    rebuilt_to(m, w, r, r.len())
}

// ---------------------------------------------------------------------
// Laws
// ---------------------------------------------------------------------

pub proof fn lemma_rebuilt_len(m: Predictor, w: int, r: Seq<u8>, n: nat)
    ensures
        rebuilt_to(m, w, r, n).len() == n,
    decreases n,
{
    if n > 0 {
        lemma_rebuilt_len(m, w, r, (n - 1) as nat);
    }
}

/// Predictions look back only.
pub proof fn lemma_prediction_causal(m: Predictor, w: int, p: Seq<u8>, q: Seq<u8>, i: int)
    requires
        w > 0,
        0 <= i,
        forall|k: int| 0 <= k < i ==> p[k] == q[k],
    ensures
        prediction(m, w, p, i) == prediction(m, w, q, i),
{
    if i > 0 && i / w > 0 {
        let y = i / w;
        vstd::arithmetic::div_mod::lemma_fundamental_div_mod(i, w);
        assert(i >= w) by (nonlinear_arith)
            requires
                i == w * y + i % w,
                i % w >= 0,
                y >= 1,
                w > 0,
        ;
        let x = i % w;
        if i == w {
            vstd::arithmetic::div_mod::lemma_fundamental_div_mod_converse(i, w, 1, 0);
        }
    }
}

/// The residuals of a plane rebuild the plane, under every predictor.
pub proof fn law_rebuild_residuals(m: Predictor, w: int, p: Seq<u8>)
    requires
        w > 0,
    ensures
        rebuilt(m, w, residuals(m, w, p)) == p,
{
    lemma_rebuild_prefix(m, w, p, p.len());
    assert(p.take(p.len() as int) =~= p);
}

#[verifier::spinoff_prover]
#[verifier::rlimit(40)]
proof fn lemma_rebuild_prefix(m: Predictor, w: int, p: Seq<u8>, n: nat)
    requires
        w > 0,
        n <= p.len(),
    ensures
        rebuilt_to(m, w, residuals(m, w, p), n) == p.take(n as int),
    decreases n,
{
    if n == 0 {
        assert(p.take(0) =~= Seq::empty());
    } else {
        lemma_rebuild_prefix(m, w, p, (n - 1) as nat);
        lemma_prediction_causal(m, w, p.take(n - 1), p, n - 1);
        assert(p.take(n as int) =~= p.take(n - 1).push(p[n - 1]));
    }
}

/// The plane rebuilt from residuals has these residuals, under every
/// predictor.
pub proof fn law_residuals_rebuild(m: Predictor, w: int, r: Seq<u8>)
    requires
        w > 0,
    ensures
        residuals(m, w, rebuilt(m, w, r)) == r,
{
    let p = rebuilt(m, w, r);
    lemma_rebuilt_len(m, w, r, r.len());
    assert forall|i: int| 0 <= i < r.len() implies residuals(m, w, p)[i] == r[i] by {
        lemma_rebuilt_sample(m, w, r, i);
        let v = prediction(m, w, p, i);
        assert(((r[i] + v) % 256 - v) % 256 == r[i]);
    }
    assert(residuals(m, w, p) =~= r);
}

/// A rebuilt sample is its residual plus its prediction.
proof fn lemma_rebuilt_sample(m: Predictor, w: int, r: Seq<u8>, i: int)
    requires
        w > 0,
        0 <= i < r.len(),
    ensures
        rebuilt(m, w, r)[i] == (r[i] + prediction(m, w, rebuilt(m, w, r), i)) % 256,
{
    let p = rebuilt(m, w, r);
    let head = rebuilt_to(m, w, r, i as nat);
    lemma_rebuilt_prefix(m, w, r, (i + 1) as nat, r.len());
    lemma_rebuilt_prefix(m, w, r, i as nat, r.len());
    lemma_rebuilt_len(m, w, r, i as nat);
    lemma_rebuilt_len(m, w, r, (i + 1) as nat);
    assert forall|k: int| 0 <= k < i implies p[k] == head[k] by {
        assert(rebuilt_to(m, w, r, r.len())[k] == head[k]);
    }
    lemma_prediction_causal(m, w, p, head, i);
    assert(p[i] == rebuilt_to(m, w, r, (i + 1) as nat)[i]);
}

proof fn lemma_rebuilt_prefix(m: Predictor, w: int, r: Seq<u8>, a: nat, b: nat)
    requires
        a <= b,
    ensures
        forall|i: int| 0 <= i < a ==> rebuilt_to(m, w, r, a)[i] == #[trigger] rebuilt_to(
            m,
            w,
            r,
            b,
        )[i],
    decreases b,
{
    if a < b {
        lemma_rebuilt_prefix(m, w, r, a, (b - 1) as nat);
        lemma_rebuilt_len(m, w, r, (b - 1) as nat);
    }
}

// ---------------------------------------------------------------------
// Medians
// ---------------------------------------------------------------------

/// The gradient of three neighbours, clamped to the range of the first two.
pub fn clamped_med(l: u8, t: u8, tl: u8) -> (r: u8)
    ensures
        r == med(l, t, tl),
{
    let gradient: i32 = l as i32 + t as i32 - tl as i32;
    let lo: u8 = if l <= t {
        l
    } else {
        t
    };
    let hi: u8 = if l <= t {
        t
    } else {
        l
    };
    if gradient < lo as i32 {
        lo
    } else if gradient > hi as i32 {
        hi
    } else {
        gradient as u8
    }
}

/// As [`clamped_med`], with the gradient taken modulo 256 first.
pub fn clamped_med_wrap(l: u8, t: u8, tl: u8) -> (r: u8)
    ensures
        r == med_wrap(l, t, tl),
{
    let g: u8 = l.wrapping_add(t).wrapping_sub(tl);
    let lo: u8 = if l <= t {
        l
    } else {
        t
    };
    let hi: u8 = if l <= t {
        t
    } else {
        l
    };
    if g < lo {
        lo
    } else if g > hi {
        hi
    } else {
        g
    }
}

/// Sum modulo 256.
pub fn add_mod(a: u8, b: u8) -> (r: u8)
    ensures
        r == (a + b) % 256,
{
    a.wrapping_add(b)
}

/// Difference modulo 256.
pub fn sub_mod(a: u8, b: u8) -> (r: u8)
    ensures
        r == (a - b) % 256,
{
    a.wrapping_sub(b)
}

// ---------------------------------------------------------------------
// Planes
// ---------------------------------------------------------------------

/// Row and column of a linear position.
pub proof fn lemma_position(i: int, w: int, y: int, x: int)
    requires
        w > 0,
        0 <= x < w,
        0 <= y,
        i == y * w + x,
    ensures
        i / w == y,
        i % w == x,
        y > 0 ==> i >= w,
        i < w ==> y == 0,
{
    assert(y * w == w * y) by (nonlinear_arith);
    vstd::arithmetic::div_mod::lemma_fundamental_div_mod_converse(i, w, y, x);
    assert(y > 0 ==> y * w >= w) by (nonlinear_arith)
        requires
            w > 0,
    ;
}

/// The prediction of the sample at column `x` of row `y`, position `i`.
fn predict_at(m: &Predictor, plane: &[u8], width: usize, i: usize, y: usize, x: usize) -> (r: u8)
    requires
        width > 0,
        x < width,
        i == y * width + x,
        i < plane@.len(),
    ensures
        r == prediction(*m, width as int, plane@, i as int),
{
    proof {
        lemma_position(i as int, width as int, y as int, x as int);
    }
    if i == 0 {
        return 0;
    }
    if y == 0 {
        return match m {
            Predictor::Packed { luma } => if *luma && x == 1 {
                0
            } else {
                plane[i - 1]
            },
            _ => plane[i - 1],
        };
    }
    let l: u8 = plane[i - 1];
    let t: u8 = plane[i - width];
    match m {
        Predictor::Median(rule) => {
            if x == 0 && *rule == FirstColRule::A {
                t
            } else if x == 0 && y == 1 {
                if *rule == FirstColRule::Yuv {
                    l
                } else {
                    t
                }
            } else {
                proof {
                    assert(y >= 2 ==> y * width >= 2 * width) by (nonlinear_arith);
                }
                clamped_med(l, t, plane[i - width - 1])
            }
        },
        Predictor::Seeded(seed) => {
            if x == 0 && y == 1 {
                clamped_med(l, t, *seed)
            } else {
                proof {
                    assert(y >= 2 ==> y * width >= 2 * width) by (nonlinear_arith);
                }
                clamped_med(l, t, plane[i - width - 1])
            }
        },
        Predictor::Packed { luma } => {
            let special: usize = if *luma {
                4
            } else {
                2
            };
            if y == 1 && x < special {
                l
            } else {
                proof {
                    assert(y >= 2 ==> y * width >= 2 * width) by (nonlinear_arith);
                }
                clamped_med_wrap(l, t, plane[i - width - 1])
            }
        },
    }
}

/// Turn the residuals in `plane` into samples.
fn rebuild_plane(m: &Predictor, plane: &mut [u8], width: usize, height: usize)
    requires
        old(plane)@.len() == width * height,
    ensures
        final(plane)@.len() == old(plane)@.len(),
        final(plane)@ == rebuilt(*m, width as int, old(plane)@),
{
    let n: usize = plane.len();
    let ghost r = old(plane)@;
    let ghost w = width as int;
    let mut i: usize = 0;
    let mut y: usize = 0;
    let mut x: usize = 0;
    proof {
        if n > 0 {
            assert(width > 0) by (nonlinear_arith)
                requires
                    width * height > 0,
                    width >= 0,
            ;
        }
        assert(plane@.take(0) =~= rebuilt_to(*m, w, r, 0));
    }
    while i < n
        invariant
            n > 0 ==> width > 0,
            width > 0 ==> x < width,
            i <= n,
            i == y * width + x,
            n == r.len(),
            w == width,
            plane@.len() == n,
            plane@.take(i as int) == rebuilt_to(*m, w, r, i as nat),
            forall|k: int| i <= k < n ==> plane@[k] == r[k],
        decreases n - i,
    {
        let ghost before = plane@;
        let p: u8 = predict_at(m, plane, width, i, y, x);
        let v: u8 = add_mod(plane[i], p);
        plane[i] = v;
        proof {
            lemma_prediction_causal(*m, w, before, before.take(i as int), i as int);
            assert(plane@.take(i + 1) =~= before.take(i as int).push(v));
        }
        i = i + 1;
        x = x + 1;
        if x == width {
            proof {
                assert((y + 1) * width == y * width + width) by (nonlinear_arith);
                assert(y + 1 <= i) by (nonlinear_arith)
                    requires
                        i == y * width + x,
                        x == width,
                        width > 0,
                ;
            }
            x = 0;
            y = y + 1;
        }
    }
    proof {
        assert(plane@.take(n as int) =~= plane@);
    }
}

/// The residuals of `plane`.
fn residual_plane(m: &Predictor, plane: &[u8], width: usize, height: usize) -> (out: Vec<u8>)
    requires
        plane@.len() == width * height,
    ensures
        out@ == residuals(*m, width as int, plane@),
{
    let n: usize = plane.len();
    let mut out: Vec<u8> = Vec::with_capacity(n);
    let mut i: usize = 0;
    let mut y: usize = 0;
    let mut x: usize = 0;
    proof {
        if n > 0 {
            assert(width > 0) by (nonlinear_arith)
                requires
                    width * height > 0,
                    width >= 0,
            ;
        }
    }
    while i < n
        invariant
            n > 0 ==> width > 0,
            width > 0 ==> x < width,
            i <= n,
            i == y * width + x,
            n == plane@.len(),
            out@.len() == i,
            forall|k: int|
                0 <= k < i ==> #[trigger] out@[k] == residuals(*m, width as int, plane@)[k],
        decreases n - i,
    {
        let p: u8 = predict_at(m, plane, width, i, y, x);
        out.push(sub_mod(plane[i], p));
        i = i + 1;
        x = x + 1;
        if x == width {
            proof {
                assert((y + 1) * width == y * width + width) by (nonlinear_arith);
                assert(y + 1 <= i) by (nonlinear_arith)
                    requires
                        i == y * width + x,
                        x == width,
                        width > 0,
                ;
            }
            x = 0;
            y = y + 1;
        }
    }
    assert(out@ =~= residuals(*m, width as int, plane@));
    out
}

/// Turn residuals into samples under [`FirstColRule::A`].
pub fn apply_plane_inverse(plane: &mut [u8], width: usize, height: usize)
    requires
        old(plane)@.len() == width * height,
    ensures
        final(plane)@.len() == old(plane)@.len(),
        final(plane)@ == rebuilt(
            Predictor::Median(FirstColRule::A),
            width as int,
            old(plane)@,
        ),
{
    rebuild_plane(&Predictor::Median(FirstColRule::A), plane, width, height);
}

/// Turn residuals into samples.
pub fn apply_plane_inverse_with_rule(
    plane: &mut [u8],
    width: usize,
    height: usize,
    rule: FirstColRule,
)
    requires
        old(plane)@.len() == width * height,
    ensures
        final(plane)@.len() == old(plane)@.len(),
        final(plane)@ == rebuilt(Predictor::Median(rule), width as int, old(plane)@),
{
    rebuild_plane(&Predictor::Median(rule), plane, width, height);
}

/// Turn residuals into samples, with a given top-left neighbour for the
/// first sample of the second row.
pub fn apply_plane_inverse_yuv_seeded(plane: &mut [u8], width: usize, height: usize, tl_seed: u8)
    requires
        old(plane)@.len() == width * height,
    ensures
        final(plane)@.len() == old(plane)@.len(),
        final(plane)@ == rebuilt(Predictor::Seeded(tl_seed), width as int, old(plane)@),
{
    rebuild_plane(&Predictor::Seeded(tl_seed), plane, width, height);
}

/// Turn samples into residuals under [`FirstColRule::A`].
pub fn apply_plane_forward(plane: &[u8], width: usize, height: usize) -> (out: Vec<u8>)
    requires
        plane@.len() == width * height,
    ensures
        out@ == residuals(Predictor::Median(FirstColRule::A), width as int, plane@),
{
    residual_plane(&Predictor::Median(FirstColRule::A), plane, width, height)
}

/// Turn samples into residuals.
pub fn apply_plane_forward_with_rule(
    plane: &[u8],
    width: usize,
    height: usize,
    rule: FirstColRule,
) -> (out: Vec<u8>)
    requires
        plane@.len() == width * height,
    ensures
        out@ == residuals(Predictor::Median(rule), width as int, plane@),
{
    residual_plane(&Predictor::Median(rule), plane, width, height)
}

/// Turn the residuals of a packed 4:2:2 plane into samples.
pub fn apply_plane_inverse_yuy2(plane: &mut [u8], width: usize, height: usize, luma: bool)
    requires
        old(plane)@.len() == width * height,
    ensures
        final(plane)@.len() == old(plane)@.len(),
        final(plane)@ == rebuilt(Predictor::Packed { luma }, width as int, old(plane)@),
{
    rebuild_plane(&Predictor::Packed { luma }, plane, width, height);
}

/// Turn the samples of a packed 4:2:2 plane into residuals.
pub fn apply_plane_forward_yuy2(plane: &[u8], width: usize, height: usize, luma: bool) -> (out: Vec<
    u8,
>)
    requires
        plane@.len() == width * height,
    ensures
        out@ == residuals(Predictor::Packed { luma }, width as int, plane@),
{
    residual_plane(&Predictor::Packed { luma }, plane, width, height)
}

/// Under a seed that equals the first sample, the seeded predictor is the
/// one of [`FirstColRule::Yuv`].
pub proof fn law_seed_is_yuv_rule(w: int, p: Seq<u8>, i: int)
    requires
        w > 0,
        0 <= i,
        p.len() > 0,
    ensures
        prediction(Predictor::Seeded(p[0]), w, p, i) == prediction(
            Predictor::Median(FirstColRule::Yuv),
            w,
            p,
            i,
        ),
{
    if i % w == 0 && i / w == 1 {
        vstd::arithmetic::div_mod::lemma_fundamental_div_mod(i, w);
        assert(i - w == 0) by (nonlinear_arith)
            requires
                i == w * (i / w) + i % w,
                i / w == 1,
                i % w == 0,
        ;
    }
}

// ---------------------------------------------------------------------
// Cross-plane decorrelation
// ---------------------------------------------------------------------

/// Add `g` to `c`, sample by sample, modulo 256.
pub open spec fn recorrelated(c: Seq<u8>, g: Seq<u8>) -> Seq<u8> {
    Seq::new(c.len(), |i: int| ((c[i] + g[i]) % 256) as u8)
}

/// Take `g` away from `c`, sample by sample, modulo 256.
pub open spec fn decorrelated(c: Seq<u8>, g: Seq<u8>) -> Seq<u8> {
    Seq::new(c.len(), |i: int| ((c[i] - g[i]) % 256) as u8)
}

/// Taking green away and adding it back changes nothing.
pub proof fn law_decorrelation_inverts(c: Seq<u8>, g: Seq<u8>)
    ensures
        recorrelated(decorrelated(c, g), g) == c,
        decorrelated(recorrelated(c, g), g) == c,
{
    assert(recorrelated(decorrelated(c, g), g) =~= c);
    assert(decorrelated(recorrelated(c, g), g) =~= c);
}

/// Add green to red and blue.
pub fn cross_plane_decorrelate_rgb(r: &mut [u8], g: &[u8], b: &mut [u8])
    requires
        old(r)@.len() == g@.len(),
        old(b)@.len() == g@.len(),
    ensures
        final(r)@ == recorrelated(old(r)@, g@),
        final(b)@ == recorrelated(old(b)@, g@),
{
    let n: usize = g.len();
    let mut i: usize = 0;
    while i < n
        invariant
            i <= n,
            n == g@.len(),
            r@.len() == n,
            b@.len() == n,
            old(r)@.len() == n,
            old(b)@.len() == n,
            forall|k: int| 0 <= k < i ==> #[trigger] r@[k] == recorrelated(old(r)@, g@)[k],
            forall|k: int| 0 <= k < i ==> #[trigger] b@[k] == recorrelated(old(b)@, g@)[k],
            forall|k: int| i <= k < n ==> #[trigger] r@[k] == old(r)@[k],
            forall|k: int| i <= k < n ==> #[trigger] b@[k] == old(b)@[k],
        decreases n - i,
    {
        let rv: u8 = add_mod(r[i], g[i]);
        let bv: u8 = add_mod(b[i], g[i]);
        r[i] = rv;
        b[i] = bv;
        i = i + 1;
    }
    assert(r@ =~= recorrelated(old(r)@, g@));
    assert(b@ =~= recorrelated(old(b)@, g@));
}

/// Take green away from red and blue.
pub fn cross_plane_decorrelate_rgb_forward(r: &mut [u8], g: &[u8], b: &mut [u8])
    requires
        old(r)@.len() == g@.len(),
        old(b)@.len() == g@.len(),
    ensures
        final(r)@ == decorrelated(old(r)@, g@),
        final(b)@ == decorrelated(old(b)@, g@),
{
    let n: usize = g.len();
    let mut i: usize = 0;
    while i < n
        invariant
            i <= n,
            n == g@.len(),
            r@.len() == n,
            b@.len() == n,
            old(r)@.len() == n,
            old(b)@.len() == n,
            forall|k: int| 0 <= k < i ==> #[trigger] r@[k] == decorrelated(old(r)@, g@)[k],
            forall|k: int| 0 <= k < i ==> #[trigger] b@[k] == decorrelated(old(b)@, g@)[k],
            forall|k: int| i <= k < n ==> #[trigger] r@[k] == old(r)@[k],
            forall|k: int| i <= k < n ==> #[trigger] b@[k] == old(b)@[k],
        decreases n - i,
    {
        let rv: u8 = sub_mod(r[i], g[i]);
        let bv: u8 = sub_mod(b[i], g[i]);
        r[i] = rv;
        b[i] = bv;
        i = i + 1;
    }
    assert(r@ =~= decorrelated(old(r)@, g@));
    assert(b@ =~= decorrelated(old(b)@, g@));
}

// ---------------------------------------------------------------------
// What the predictors predict
// ---------------------------------------------------------------------

/// `v` is the middle one of three numbers: two of them are not above it, and
/// two not below.
pub open spec fn is_middle(v: int, a: int, b: int, c: int) -> bool {
    &&& v == a || v == b || v == c
    &&& (a <= v && b <= v) || (a <= v && c <= v) || (b <= v && c <= v)
    &&& (a >= v && b >= v) || (a >= v && c >= v) || (b >= v && c >= v)
}

/// What is left of sample `i` of a plane without its residual.
pub open spec fn without_residual(p: Seq<u8>, r: Seq<u8>, i: int) -> int {
    (p[i] - r[i]) % 256
}

/// The row and the column of a sample, where it has a row above.
proof fn lemma_rows(i: int, w: int)
    requires
        0 <= i,
        0 < w,
    ensures
        i < w ==> i / w == 0 && i % w == i,
        i >= w ==> i / w >= 1,
        w <= i < 2 * w ==> i / w == 1 && i % w == i - w,
        i >= 2 * w ==> i / w >= 2,
        i == w <==> i / w == 1 && i % w == 0,
{
    vstd::arithmetic::div_mod::lemma_fundamental_div_mod(i, w);
    let y = i / w;
    if i < w {
        lemma_position(i, w, 0, i);
    } else if i < 2 * w {
        lemma_position(i, w, 1, i - w);
    } else {
        vstd::arithmetic::div_mod::lemma_div_is_ordered(2 * w, i, w);
        lemma_position(2 * w, w, 2, 0);
    }
}

/// A plane under a median predictor: the first sample is its residual, the
/// first row adds up along itself, and every later sample but those of the
/// first column adds its residual to the middle one of its left neighbour,
/// its upper neighbour and their sum less the one between them. The rules
/// differ in the first column. Under rule A it adds up from above. Under
/// rule B only the second row does, under the YUV rule the second row starts
/// from the end of the first, and the later rows take the last sample of the
/// row above as their left neighbour.
pub proof fn law_median_plane(rule: FirstColRule, w: int, r: Seq<u8>, i: int)
    requires
        w > 0,
        0 <= i < r.len(),
    ensures
        ({
            let p = rebuilt(Predictor::Median(rule), w, r);
            let v = without_residual(p, r, i);
            &&& p.len() == r.len()
            &&& i == 0 ==> v == 0
            &&& 0 < i < w ==> v == p[i - 1]
            &&& i == w && (rule is A || rule is B) ==> v == p[0]
            &&& i == w && rule is Yuv ==> v == p[w - 1]
            &&& i > w && i % w == 0 && rule is A ==> v == p[i - w]
            &&& i > w && (i % w != 0 || !(rule is A)) ==> is_middle(
                v,
                p[i - 1] as int,
                p[i - w] as int,
                p[i - 1] + p[i - w] - p[i - w - 1],
            )
        }),
{
    let m = Predictor::Median(rule);
    lemma_rebuilt_len(m, w, r, r.len());
    lemma_rebuilt_sample(m, w, r, i);
    lemma_rows(i, w);
}

/// A plane under a seeded predictor: as under a median predictor, with the
/// end of the first row and a seed as the left and the upper left neighbour
/// of the second row.
pub proof fn law_seeded_plane(seed: u8, w: int, r: Seq<u8>, i: int)
    requires
        w > 0,
        0 <= i < r.len(),
    ensures
        ({
            let p = rebuilt(Predictor::Seeded(seed), w, r);
            let v = without_residual(p, r, i);
            &&& p.len() == r.len()
            &&& i == 0 ==> v == 0
            &&& 0 < i < w ==> v == p[i - 1]
            &&& i == w ==> is_middle(v, p[w - 1] as int, p[0] as int, p[w - 1] + p[0] - seed)
            &&& i > w ==> is_middle(
                v,
                p[i - 1] as int,
                p[i - w] as int,
                p[i - 1] + p[i - w] - p[i - w - 1],
            )
        }),
{
    let m = Predictor::Seeded(seed);
    lemma_rebuilt_len(m, w, r, r.len());
    lemma_rebuilt_sample(m, w, r, i);
    lemma_rows(i, w);
}

/// A plane of a packed 4:2:2 frame: the first sample of a plane, and the
/// second of the first row of luma, are their residuals. The rest of the
/// first row and the start of the second, four samples of luma or two of
/// chroma, add up along the row. Every later sample adds its residual to the
/// middle one of its left neighbour, its upper neighbour and their sum less
/// the one between them, modulo 256.
pub proof fn law_packed_plane(luma: bool, w: int, r: Seq<u8>, i: int)
    requires
        w > 0,
        0 <= i < r.len(),
    ensures
        ({
            let p = rebuilt(Predictor::Packed { luma }, w, r);
            let v = without_residual(p, r, i);
            let start: int = if luma {
                4
            } else {
                2
            };
            &&& p.len() == r.len()
            &&& i == 0 ==> v == 0
            &&& 0 < i < w && luma && i == 1 ==> v == 0
            &&& 0 < i < w && !(luma && i == 1) ==> v == p[i - 1]
            &&& w <= i < 2 * w && i < w + start ==> v == p[i - 1]
            &&& (w + start <= i || 2 * w <= i) ==> is_middle(
                v,
                p[i - 1] as int,
                p[i - w] as int,
                (p[i - 1] + p[i - w] - p[i - w - 1]) % 256,
            )
        }),
{
    let m = Predictor::Packed { luma };
    lemma_rebuilt_len(m, w, r, r.len());
    lemma_rebuilt_sample(m, w, r, i);
    lemma_rows(i, w);
}

/// Adding a plane back leaves the difference to it, modulo 256.
pub proof fn law_green_added(c: Seq<u8>, g: Seq<u8>, i: int)
    requires
        0 <= i < c.len(),
    ensures
        recorrelated(c, g).len() == c.len(),
        decorrelated(c, g).len() == c.len(),
        (recorrelated(c, g)[i] - g[i]) % 256 == c[i],
        (decorrelated(c, g)[i] + g[i]) % 256 == c[i],
{
}

/// The clamped gradients are the middle one of the two neighbours and the
/// gradient.
pub proof fn law_clamped_gradient(l: u8, t: u8, tl: u8)
    ensures
        is_middle(med(l, t, tl) as int, l as int, t as int, l + t - tl),
        is_middle(med_wrap(l, t, tl) as int, l as int, t as int, (l + t - tl) % 256),
{
}

} // verus!
