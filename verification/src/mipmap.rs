//! Mipmap chains: each level is a box-filtered half of the one before it.

use vstd::prelude::*;
use vstd::arithmetic::logarithm::{log, lemma_log0, lemma_log_s};
use crate::image::{ImageAsset, ImageModel, LevelModel, MipLevel};

verus! {

/// Half of a dimension, rounded down, and never less than one.
pub open spec fn half(d: int) -> int {
    if d / 2 < 1 {
        1
    } else {
        d / 2
    }
}

/// A dimension after `k` halvings.
pub open spec fn level_dim(d: int, k: nat) -> int
    decreases k,
{
    if k == 0 {
        d
    } else {
        half(level_dim(d, (k - 1) as nat))
    }
}

/// The larger of two numbers.
pub open spec fn larger(a: int, b: int) -> int {
    if a >= b {
        a
    } else {
        b
    }
}

/// The smaller of two numbers.
pub open spec fn smaller(a: int, b: int) -> int {
    if a <= b {
        a
    } else {
        b
    }
}

/// The number of levels from the source down to 1x1, both included.
pub open spec fn full_chain_len(width: int, height: int) -> int {
    log(2, larger(width, height)) + 1
}

/// The number of levels generated for a `width` x `height` source when at
/// most `limit` levels are wanted: none for an empty source.
pub open spec fn chain_len(width: int, height: int, limit: int) -> int {
    if width * height == 0 {
        0
    } else {
        smaller(full_chain_len(width, height), limit)
    }
}

/// Channel `c` of the texel that the box filter puts at column `x`, row `y`
/// of the next level: the rounded mean of the 2x2 source texels under it. A
/// source that is one texel wide or high is sampled twice along that axis.
pub open spec fn box_texel(src: LevelModel, x: int, y: int, c: int) -> u8 {
    let x0 = 2 * x;
    let x1 = smaller(2 * x + 1, src.width - 1);
    let y0 = 2 * y;
    let y1 = smaller(2 * y + 1, src.height - 1);
    ((src.texel(x0, y0, c) + src.texel(x1, y0, c) + src.texel(x0, y1, c) + src.texel(x1, y1, c)
        + 2) / 4) as u8
}

/// The level below `src`.
pub open spec fn downsampled(src: LevelModel) -> LevelModel {
    let w = half(src.width);
    let h = half(src.height);
    LevelModel {
        width: w,
        height: h,
        data: Seq::new((w * h * 4) as nat, |i: int| box_texel(src, (i / 4) % w, (i / 4) / w, i % 4)),
    }
}

/// The first `n` levels of the chain that starts at `base`.
pub open spec fn mip_chain(base: LevelModel, n: nat) -> Seq<LevelModel>
    decreases n,
{
    if n == 0 {
        Seq::empty()
    } else if n == 1 {
        seq![base]
    } else {
        let shorter = mip_chain(base, (n - 1) as nat);
        shorter.push(downsampled(shorter.last()))
    }
}

/// The chain generated for `image` under a limit of `limit` levels.
pub open spec fn image_chain(image: ImageModel, limit: int) -> Seq<LevelModel> {
    mip_chain(image.base_level(), chain_len(image.width, image.height, limit) as nat)
}

proof fn lemma_half_bounds(d: int)
    requires
        d >= 1,
    ensures
        1 <= half(d) <= d,
{
}

proof fn lemma_mul_le(a: int, b: int, c: int, d: int)
    by (nonlinear_arith)
    requires
        0 <= a <= c,
        0 <= b <= d,
    ensures
        a * b <= c * d,
{
}

/// Where a texel's channel lies in a row-major grid of four-byte texels,
/// and that its place gives back its column, row and channel.
pub proof fn lemma_texel_index(w: int, h: int, x: int, y: int, c: int)
    requires
        0 <= x < w,
        0 <= y < h,
        0 <= c < 4,
    ensures
        0 <= y * w + x < w * h,
        0 <= (y * w + x) * 4 + c < w * h * 4,
        ((y * w + x) * 4 + c) / 4 == y * w + x,
        ((y * w + x) * 4 + c) % 4 == c,
        (y * w + x) % w == x,
        (y * w + x) / w == y,
        0 <= y * w <= (h - 1) * w,
{
    assert(0 <= y * w <= (h - 1) * w) by (nonlinear_arith)
        requires
            0 <= y <= h - 1,
            0 < w,
    ;
    assert((h - 1) * w == w * h - w) by (nonlinear_arith);
    vstd::arithmetic::div_mod::lemma_fundamental_div_mod_converse(y * w + x, w, y, x);
}

/// The level below a grid of texels is again a grid of texels, and no larger.
pub proof fn lemma_downsampled_is_raw(src: LevelModel)
    requires
        src.is_raw(),
    ensures
        downsampled(src).is_raw(),
        downsampled(src).width == half(src.width),
        downsampled(src).height == half(src.height),
        downsampled(src).data.len() <= src.data.len(),
{
    lemma_half_bounds(src.width);
    lemma_half_bounds(src.height);
    lemma_mul_le(half(src.width), half(src.height), src.width, src.height);
    lemma_mul_le(1, 1, half(src.width), half(src.height));
}

/// One step of the box filter.
pub fn downsample(src: &MipLevel) -> (dst: MipLevel)
    requires
        src@.is_raw(),
    ensures
        dst@ == downsampled(src@),
{
    let sw: usize = src.width as usize;
    let sh: usize = src.height as usize;
    let w: u32 = if src.width / 2 < 1 { 1 } else { src.width / 2 };
    let h: u32 = if src.height / 2 < 1 { 1 } else { src.height / 2 };
    let ghost goal = downsampled(src@);
    proof {
        lemma_downsampled_is_raw(src@);
        lemma_texel_index(sw as int, sh as int, 0, 0, 0);
    }
    let mut data: Vec<u8> = Vec::new();
    let mut y: u32 = 0;
    while y < h
        invariant
            src@.is_raw(),
            sw == src.width,
            sh == src.height,
            w == half(src.width as int),
            h == half(src.height as int),
            goal == downsampled(src@),
            goal.is_raw(),
            y <= h,
            data.len() == y * w * 4,
            data.len() <= goal.data.len(),
            forall|i: int| 0 <= i < data.len() ==> data[i] == #[trigger] goal.data[i],
        decreases h - y,
    {
        let mut x: u32 = 0;
        while x < w
            invariant
                src@.is_raw(),
                sw == src.width,
                sh == src.height,
                w == half(src.width as int),
                h == half(src.height as int),
                goal == downsampled(src@),
                goal.is_raw(),
                y < h,
                x <= w,
                data.len() == (y * w + x) * 4,
                data.len() <= goal.data.len(),
                forall|i: int| 0 <= i < data.len() ==> data[i] == #[trigger] goal.data[i],
            decreases w - x,
        {
            let x0: usize = 2 * (x as usize);
            let x1: usize = if 2 * (x as usize) + 1 < sw { 2 * (x as usize) + 1 } else { sw - 1 };
            let y0: usize = 2 * (y as usize);
            let y1: usize = if 2 * (y as usize) + 1 < sh { 2 * (y as usize) + 1 } else { sh - 1 };
            proof {
                lemma_texel_index(sw as int, sh as int, x0 as int, y0 as int, 0);
                lemma_texel_index(sw as int, sh as int, x1 as int, y0 as int, 0);
                lemma_texel_index(sw as int, sh as int, x0 as int, y1 as int, 0);
                lemma_texel_index(sw as int, sh as int, x1 as int, y1 as int, 0);
                lemma_texel_index(w as int, h as int, x as int, y as int, 0);
                assert(sw * sh * 4 == src.data.len());
                assert(y0 * sw + x0 < sw * sh);
                assert(y0 * sw + x1 < sw * sh);
                assert(y1 * sw + x0 < sw * sh);
                assert(y1 * sw + x1 < sw * sh);
            }
            let i00: usize = (y0 * sw + x0) * 4;
            let i10: usize = (y0 * sw + x1) * 4;
            let i01: usize = (y1 * sw + x0) * 4;
            let i11: usize = (y1 * sw + x1) * 4;
            let mut c: usize = 0;
            while c < 4
                invariant
                    src@.is_raw(),
                    sw == src.width,
                    sh == src.height,
                    w == half(src.width as int),
                    h == half(src.height as int),
                    goal == downsampled(src@),
                    goal.is_raw(),
                    y < h,
                    x < w,
                    c <= 4,
                    x0 == 2 * x,
                    y0 == 2 * y,
                    x1 == smaller(2 * x + 1, src.width - 1),
                    y1 == smaller(2 * y + 1, src.height - 1),
                    i00 == (y0 * sw + x0) * 4,
                    i10 == (y0 * sw + x1) * 4,
                    i01 == (y1 * sw + x0) * 4,
                    i11 == (y1 * sw + x1) * 4,
                    i00 + 4 <= src.data.len(),
                    i10 + 4 <= src.data.len(),
                    i01 + 4 <= src.data.len(),
                    i11 + 4 <= src.data.len(),
                    data.len() == (y * w + x) * 4 + c,
                    data.len() <= goal.data.len(),
                    forall|i: int| 0 <= i < data.len() ==> data[i] == #[trigger] goal.data[i],
                decreases 4 - c,
            {
                let sum: u16 = src.data[i00 + c] as u16 + src.data[i10 + c] as u16
                    + src.data[i01 + c] as u16 + src.data[i11 + c] as u16 + 2;
                proof {
                    lemma_texel_index(w as int, h as int, x as int, y as int, c as int);
                    let i = data.len() as int;
                    assert(goal.data[i] == box_texel(src@, x as int, y as int, c as int));
                }
                data.push((sum / 4) as u8);
                c += 1;
            }
            x += 1;
        }
        proof {
            assert((y * w + w) * 4 == (y + 1) * w * 4) by (nonlinear_arith);
        }
        y += 1;
    }
    proof {
        assert(h * w * 4 == w * h * 4) by (nonlinear_arith);
    }
    let dst = MipLevel { width: w, height: h, data };
    proof {
        assert(dst@.data =~= goal.data);
    }
    dst
}

proof fn lemma_chain_last(base: LevelModel, n: nat)
    requires
        base.is_raw(),
        n >= 1,
    ensures
        mip_chain(base, n).len() == n,
        mip_chain(base, n).last().is_raw(),
        mip_chain(base, n).last().width == level_dim(base.width, (n - 1) as nat),
        mip_chain(base, n).last().height == level_dim(base.height, (n - 1) as nat),
    decreases n,
{
    if n > 1 {
        lemma_chain_last(base, (n - 1) as nat);
        lemma_downsampled_is_raw(mip_chain(base, (n - 1) as nat).last());
    }
}

/// Halving the larger side of a level halves the larger side of the next one,
/// as long as the level is not yet 1x1.
proof fn lemma_larger_halves(w: int, h: int)
    requires
        w >= 1,
        h >= 1,
        larger(w, h) >= 2,
    ensures
        larger(half(w), half(h)) == larger(w, h) / 2,
        log(2, larger(w, h)) == 1 + log(2, larger(half(w), half(h))),
{
    lemma_log_s(2, larger(w, h));
}

/// Generates the chain of `image`: the source itself, then one level per
/// halving, down to 1x1 or until `limit` levels exist.
pub fn generate_chain(image: &ImageAsset, limit: u32) -> (chain: Vec<MipLevel>)
    ensures
        crate::image::level_models(chain@) == image_chain(image@, limit as int),
        chain.len() == chain_len(image@.width, image@.height, limit as int),
        forall|k: int| 0 <= k < chain.len() ==> (#[trigger] chain[k])@.is_raw(),
{
    let mut chain: Vec<MipLevel> = Vec::new();
    let source = image.data();
    let width = image.width();
    let height = image.height();
    if width == 0 || height == 0 || limit == 0 {
        proof {
            assert(width == 0 || height == 0 ==> width * height == 0) by (nonlinear_arith);
            vstd::arithmetic::logarithm::lemma_log_nonnegative(2, larger(width as int, height as int));
            assert(crate::image::level_models(chain@) =~= image_chain(image@, limit as int));
        }
        return chain;
    }
    let ghost base = image@.base_level();
    let ghost total = chain_len(width as int, height as int, limit as int);
    proof {
        assert(width * height != 0) by (nonlinear_arith)
            requires
                width >= 1,
                height >= 1,
        ;
        vstd::arithmetic::logarithm::lemma_log_nonnegative(2, larger(width as int, height as int));
    }
    chain.push(MipLevel { width, height, data: source.clone() });
    proof {
        assert(crate::image::level_models(chain@) =~= mip_chain(base, 1));
        lemma_chain_last(base, 1);
    }
    while chain.len() < limit as usize && (chain[chain.len() - 1].width > 1 || chain[chain.len()
        - 1].height > 1)
        invariant
            base == image@.base_level(),
            base.is_raw(),
            total == smaller(full_chain_len(base.width, base.height), limit as int),
            1 <= chain.len() <= total,
            chain.len() <= limit,
            crate::image::level_models(chain@) == mip_chain(base, chain.len() as nat),
            forall|k: int| 0 <= k < chain.len() ==> (#[trigger] chain[k])@.is_raw(),
            log(2, larger(chain@.last()@.width, chain@.last()@.height)) + chain.len()
                == full_chain_len(base.width, base.height),
        decreases total - chain.len(),
    {
        let ghost n = chain.len() as nat;
        let ghost before = crate::image::level_models(chain@);
        proof {
            lemma_chain_last(base, n);
            assert(before.last() == chain@.last()@);
            lemma_larger_halves(chain@.last()@.width, chain@.last()@.height);
            lemma_downsampled_is_raw(chain@.last()@);
            vstd::arithmetic::logarithm::lemma_log_nonnegative(
                2,
                larger(half(chain@.last()@.width), half(chain@.last()@.height)),
            );
        }
        let next = downsample(&chain[chain.len() - 1]);
        chain.push(next);
        proof {
            assert(crate::image::level_models(chain@) =~= before.push(downsampled(before.last())));
        }
    }
    proof {
        let last = chain@.last()@;
        lemma_chain_last(base, chain.len() as nat);
        assert(crate::image::level_models(chain@).last() == last);
        if chain.len() < limit {
            assert(last.width == 1 && last.height == 1);
            lemma_log0(2, 1);
        }
    }
    chain
}

/// Two to the power `n`.
pub open spec fn pow2(n: nat) -> int
    decreases n,
{
    if n == 0 {
        1
    } else {
        2 * pow2((n - 1) as nat)
    }
}

/// `log(2, n)` is the whole part of the binary logarithm of `n`.
pub proof fn lemma_log2_is_floor(n: int)
    requires
        n >= 1,
    ensures
        log(2, n) >= 0,
        pow2(log(2, n) as nat) <= n < 2 * pow2(log(2, n) as nat),
    decreases n,
{
    if n < 2 {
        lemma_log0(2, n);
    } else {
        lemma_log_s(2, n);
        lemma_log2_is_floor(n / 2);
    }
}

proof fn lemma_chain_prefix(base: LevelModel, n: nat, k: int)
    requires
        base.is_raw(),
        0 <= k < n,
    ensures
        mip_chain(base, n).len() == n,
        mip_chain(base, n)[k] == mip_chain(base, (k + 1) as nat).last(),
    decreases n,
{
    lemma_chain_last(base, n);
    if k + 1 < n {
        lemma_chain_prefix(base, (n - 1) as nat, k);
    }
}

/// The shape of a chain: it starts with the base level, and each further
/// level is the box-filtered half of the one before it, each side halved
/// and never less than one.
pub proof fn lemma_chain_steps(base: LevelModel, n: nat, k: int)
    requires
        base.is_raw(),
        0 <= k,
        k + 1 < n,
    ensures
        mip_chain(base, n).len() == n,
        mip_chain(base, n)[0] == base,
        mip_chain(base, n)[k].is_raw(),
        mip_chain(base, n)[k + 1] == downsampled(mip_chain(base, n)[k]),
        mip_chain(base, n)[k + 1].width == larger(1, mip_chain(base, n)[k].width / 2),
        mip_chain(base, n)[k + 1].height == larger(1, mip_chain(base, n)[k].height / 2),
{
    lemma_chain_prefix(base, n, 0);
    lemma_chain_prefix(base, n, k);
    lemma_chain_prefix(base, n, k + 1);
    lemma_chain_last(base, (k + 1) as nat);
    lemma_downsampled_is_raw(mip_chain(base, (k + 1) as nat).last());
}

proof fn lemma_dims_along_chain(w: int, h: int, k: nat)
    requires
        w >= 1,
        h >= 1,
        k <= log(2, larger(w, h)),
    ensures
        level_dim(w, k) >= 1,
        level_dim(h, k) >= 1,
        log(2, larger(level_dim(w, k), level_dim(h, k))) + k == log(2, larger(w, h)),
    decreases k,
{
    if k > 0 {
        lemma_dims_along_chain(w, h, (k - 1) as nat);
        let pw = level_dim(w, (k - 1) as nat);
        let ph = level_dim(h, (k - 1) as nat);
        if larger(pw, ph) < 2 {
            lemma_log0(2, larger(pw, ph));
        }
        lemma_larger_halves(pw, ph);
    }
}

/// An image of positive area gets `floor(log2(max(width, height))) + 1`
/// levels, or `limit` levels where that is fewer. Without a limit in the
/// way, the last level is 1x1 and no level before it is.
pub proof fn lemma_chain_length(image: ImageModel, limit: int, k: int)
    requires
        image.wf(),
        image.area() > 0,
        limit >= 0,
    ensures
        image_chain(image, limit).len() == smaller(
            log(2, larger(image.width, image.height)) + 1,
            limit,
        ),
        pow2(log(2, larger(image.width, image.height)) as nat) <= larger(image.width, image.height)
            < 2 * pow2(log(2, larger(image.width, image.height)) as nat),
        0 <= k < image_chain(image, limit).len() ==> {
            let level = image_chain(image, limit)[k];
            &&& level.width == level_dim(image.width, k as nat)
            &&& level.height == level_dim(image.height, k as nat)
            &&& (level.width == 1 && level.height == 1 <==> k == log(
                2,
                larger(image.width, image.height),
            ))
        },
{
    let w = image.width;
    let h = image.height;
    assert(w >= 1 && h >= 1) by (nonlinear_arith)
        requires
            w * h > 0,
            w >= 0,
            h >= 0,
    ;
    lemma_log2_is_floor(larger(w, h));
    let n = chain_len(w, h, limit) as nat;
    let base = image.base_level();
    if n > 0 {
        lemma_chain_last(base, n);
    }
    if 0 <= k < n {
        lemma_chain_prefix(base, n, k);
        lemma_chain_last(base, (k + 1) as nat);
        lemma_dims_along_chain(w, h, k as nat);
        let m = larger(level_dim(w, k as nat), level_dim(h, k as nat));
        if m < 2 {
            lemma_log0(2, m);
        } else {
            lemma_log_s(2, m);
            vstd::arithmetic::logarithm::lemma_log_nonnegative(2, m / 2);
        }
    }
}

} // verus!
