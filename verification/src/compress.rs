//! Block compression of mipmap levels: BC1 where alpha is unused, BC3 where
//! it is used.

use vstd::prelude::*;
use crate::image::{Encoding, LevelModel, MipLevel, PayloadModel, TexturePayload, level_models};
use crate::mipmap::{larger, smaller};
use crate::settings::MipmapGeneratorSettings;

verus! {

/// The largest inset that the endpoint search may try.
pub const MAX_INSET: u8 = 8;

/// Whether any texel of `data` has an alpha below fully opaque.
pub open spec fn alpha_in_use(data: Seq<u8>) -> bool {
    exists|i: int| 0 <= i && 4 * i + 3 < data.len() && #[trigger] data[4 * i + 3] != 255
}

/// The layout chosen for a chain: the half-size layout where alpha is
/// unused, the layout that carries alpha where it is used.
pub open spec fn selected_encoding(alpha_used: bool) -> Encoding {
    if alpha_used {
        Encoding::Bc3
    } else {
        Encoding::Bc1
    }
}

/// The number of bytes that one 4x4 block takes in `encoding`.
pub open spec fn block_bytes(encoding: Encoding) -> int {
    match encoding {
        Encoding::Raw => 64,
        Encoding::Bc1 => 8,
        Encoding::Bc3 => 16,
    }
}

/// The number of blocks that cover `d` texels.
pub open spec fn blocks_across(d: int) -> int {
    (d + 3) / 4
}

/// Channel `c` of the texel at `(x, y)`, where coordinates past the edge
/// name the last column or row.
pub open spec fn clamped_texel(level: LevelModel, x: int, y: int, c: int) -> u8 {
    level.data[(smaller(y, level.height - 1) * level.width + smaller(x, level.width - 1)) * 4 + c]
}

/// The sixteen texels of block `(bx, by)`, row by row, four bytes each.
pub open spec fn block_of(level: LevelModel, bx: int, by: int) -> Seq<u8> {
    Seq::new(64, |j: int| clamped_texel(level, 4 * bx + (j / 4) % 4, 4 * by + (j / 4) / 4, j % 4))
}

/// The largest value of channel `c` among the first `n` texels of a block.
pub open spec fn channel_max(block: Seq<u8>, c: int, n: nat) -> int
    decreases n,
{
    if n == 0 {
        0
    } else {
        larger(channel_max(block, c, (n - 1) as nat), block[4 * (n - 1) + c] as int)
    }
}

/// The smallest value of channel `c` among the first `n` texels of a block.
pub open spec fn channel_min(block: Seq<u8>, c: int, n: nat) -> int
    decreases n,
{
    if n == 0 {
        255
    } else {
        smaller(channel_min(block, c, (n - 1) as nat), block[4 * (n - 1) + c] as int)
    }
}

/// The upper end of a channel's range, moved inwards by `t` sixteenths.
pub open spec fn inset_high(max: int, min: int, t: int) -> int {
    max - (max - min) * t / 16
}

/// The lower end of a channel's range, moved inwards by `t` sixteenths.
pub open spec fn inset_low(max: int, min: int, t: int) -> int {
    min + (max - min) * t / 16
}

/// An 8-bit value at the precision of channel `c`: six bits for green,
/// five for red and blue.
pub open spec fn quantized(v: int, c: int) -> int {
    if c == 1 {
        v / 4
    } else {
        v / 8
    }
}

/// What the decoder makes of a quantized value of channel `c`.
pub open spec fn expanded(q: int, c: int) -> int {
    if c == 1 {
        q * 4 + q / 16
    } else {
        q * 8 + q / 4
    }
}

/// The quantized upper endpoint of channel `c` for inset `t`.
pub open spec fn q_high(block: Seq<u8>, c: int, t: int) -> int {
    quantized(inset_high(channel_max(block, c, 16), channel_min(block, c, 16), t), c)
}

/// The quantized lower endpoint of channel `c` for inset `t`.
pub open spec fn q_low(block: Seq<u8>, c: int, t: int) -> int {
    quantized(inset_low(channel_max(block, c, 16), channel_min(block, c, 16), t), c)
}

/// Entry `k` of the four-colour palette between two decoded endpoints.
pub open spec fn interpolated(e0: int, e1: int, k: int) -> int {
    if k == 0 {
        e0
    } else if k == 1 {
        e1
    } else if k == 2 {
        (2 * e0 + e1) / 3
    } else {
        (e0 + 2 * e1) / 3
    }
}

/// Channel `c` of palette entry `k` of a block encoded with inset `t`.
pub open spec fn palette(block: Seq<u8>, t: int, k: int, c: int) -> int {
    interpolated(expanded(q_high(block, c, t), c), expanded(q_low(block, c, t), c), k)
}

/// The square of a difference.
pub open spec fn sq(d: int) -> int {
    d * d
}

/// The squared distance between texel `i` and palette entry `k`.
pub open spec fn texel_cost(block: Seq<u8>, t: int, i: int, k: int) -> int {
    sq(block[4 * i] - palette(block, t, k, 0)) + sq(block[4 * i + 1] - palette(block, t, k, 1))
        + sq(block[4 * i + 2] - palette(block, t, k, 2))
}

/// The position of the first smallest value among the first `n` of `costs`.
pub open spec fn first_min(costs: Seq<int>, n: nat) -> int
    decreases n,
{
    if n <= 1 {
        0
    } else {
        let best = first_min(costs, (n - 1) as nat);
        if costs[n - 1] < costs[best] {
            n - 1
        } else {
            best
        }
    }
}

/// `first_min` names a smallest value, and the first of them.
pub proof fn lemma_first_min(costs: Seq<int>, n: nat)
    requires
        1 <= n <= costs.len(),
    ensures
        0 <= first_min(costs, n) < n,
        forall|j: int| 0 <= j < n ==> costs[first_min(costs, n)] <= #[trigger] costs[j],
        forall|j: int| 0 <= j < first_min(costs, n) ==> costs[first_min(costs, n)] < #[trigger] costs[j],
    decreases n,
{
    if n > 1 {
        lemma_first_min(costs, (n - 1) as nat);
    }
}

/// The costs of the four palette entries for texel `i`.
pub open spec fn texel_costs(block: Seq<u8>, t: int, i: int) -> Seq<int> {
    Seq::new(4, |k: int| texel_cost(block, t, i, k))
}

/// The palette entry chosen for texel `i`: the nearest, the first of equals.
pub open spec fn color_index(block: Seq<u8>, t: int, i: int) -> int {
    first_min(texel_costs(block, t, i), 4)
}

/// The summed squared error of the first `n` texels under inset `t`.
pub open spec fn block_error(block: Seq<u8>, t: int, n: nat) -> int
    decreases n,
{
    if n == 0 {
        0
    } else {
        block_error(block, t, (n - 1) as nat) + texel_cost(
            block,
            t,
            n - 1,
            color_index(block, t, n - 1),
        )
    }
}

/// The 16-bit colour of three quantized channels.
pub open spec fn color565(r: int, g: int, b: int) -> int {
    r * 2048 + g * 32 + b
}

/// The byte that holds the indices of row `j`.
pub open spec fn index_row(block: Seq<u8>, t: int, j: int) -> int {
    color_index(block, t, 4 * j) + 4 * color_index(block, t, 4 * j + 1) + 16 * color_index(
        block,
        t,
        4 * j + 2,
    ) + 64 * color_index(block, t, 4 * j + 3)
}

/// The eight bytes of a colour block encoded with inset `t`: the two
/// endpoints, upper first, then one byte of indices per row.
#[verifier::opaque]
pub open spec fn color_block(block: Seq<u8>, t: int) -> Seq<u8> {
    let c0 = color565(q_high(block, 0, t), q_high(block, 1, t), q_high(block, 2, t));
    let c1 = color565(q_low(block, 0, t), q_low(block, 1, t), q_low(block, 2, t));
    seq![
        (c0 % 256) as u8,
        (c0 / 256) as u8,
        (c1 % 256) as u8,
        (c1 / 256) as u8,
        index_row(block, t, 0) as u8,
        index_row(block, t, 1) as u8,
        index_row(block, t, 2) as u8,
        index_row(block, t, 3) as u8,
    ]
}

/// The errors of the insets `0..=steps`.
pub open spec fn inset_errors(block: Seq<u8>, steps: int) -> Seq<int> {
    Seq::new((steps + 1) as nat, |t: int| block_error(block, t, 16))
}

/// The number of insets beyond the first that a search of `steps` steps
/// tries: an inset of more than half the range would cross the endpoints.
pub open spec fn search_depth(steps: int) -> int {
    if steps > MAX_INSET {
        MAX_INSET as int
    } else {
        steps
    }
}

/// The inset that the search settles on: the one of least error among
/// `0..=search_depth(steps)`, the first of equals.
pub open spec fn best_inset(block: Seq<u8>, steps: int) -> int {
    first_min(inset_errors(block, search_depth(steps)), (search_depth(steps) + 1) as nat)
}

/// Entry `k` of the eight-value alpha palette between `a0` and `a1`.
pub open spec fn alpha_palette(a0: int, a1: int, k: int) -> int {
    if k == 0 {
        a0
    } else if k == 1 {
        a1
    } else {
        ((8 - k) * a0 + (k - 1) * a1) / 7
    }
}

/// How far two values are apart.
pub open spec fn distance(a: int, b: int) -> int {
    if a >= b {
        a - b
    } else {
        b - a
    }
}

/// The distances from the alpha of texel `i` to the eight palette entries.
pub open spec fn alpha_costs(block: Seq<u8>, i: int) -> Seq<int> {
    Seq::new(
        8,
        |k: int|
            distance(
                block[4 * i + 3] as int,
                alpha_palette(channel_max(block, 3, 16), channel_min(block, 3, 16), k),
            ),
    )
}

/// The alpha palette entry chosen for texel `i`.
pub open spec fn alpha_index(block: Seq<u8>, i: int) -> int {
    first_min(alpha_costs(block, i), 8)
}

/// The 24 bits that hold the alpha indices of texels `8 * g .. 8 * g + 8`,
/// three bits each, the first texel lowest.
pub open spec fn alpha_group(block: Seq<u8>, g: int) -> int {
    alpha_index(block, 8 * g) + 8 * alpha_index(block, 8 * g + 1) + 64 * alpha_index(
        block,
        8 * g + 2,
    ) + 512 * alpha_index(block, 8 * g + 3) + 4096 * alpha_index(block, 8 * g + 4) + 32768
        * alpha_index(block, 8 * g + 5) + 262144 * alpha_index(block, 8 * g + 6) + 2097152
        * alpha_index(block, 8 * g + 7)
}

/// The eight bytes of an alpha block: the largest and the smallest alpha,
/// then the indices.
pub open spec fn alpha_block(block: Seq<u8>) -> Seq<u8> {
    let g0 = alpha_group(block, 0);
    let g1 = alpha_group(block, 1);
    seq![
        channel_max(block, 3, 16) as u8,
        channel_min(block, 3, 16) as u8,
        (g0 % 256) as u8,
        (g0 / 256 % 256) as u8,
        (g0 / 65536) as u8,
        (g1 % 256) as u8,
        (g1 / 256 % 256) as u8,
        (g1 / 65536) as u8,
    ]
}

/// The bytes of one compressed block: the colours under the inset that the
/// search over `0..=steps` settles on, after the alpha where the layout
/// carries it.
pub open spec fn encoded_block(block: Seq<u8>, encoding: Encoding, steps: int) -> Seq<u8> {
    let colors = color_block(block, best_inset(block, steps));
    if encoding == Encoding::Bc3 {
        alpha_block(block) + colors
    } else {
        colors
    }
}

/// A level in `encoding`: itself where that is the raw layout, else every
/// block encoded on its own, row of blocks by row of blocks.
pub open spec fn compressed_level(level: LevelModel, encoding: Encoding, steps: int) -> LevelModel {
    if encoding == Encoding::Raw {
        level
    } else {
        let across = blocks_across(level.width);
        let down = blocks_across(level.height);
        let size = block_bytes(encoding);
        LevelModel {
            width: level.width,
            height: level.height,
            data: Seq::new(
                (across * down * size) as nat,
                |i: int|
                    encoded_block(
                        block_of(level, (i / size) % across, (i / size) / across),
                        encoding,
                        steps,
                    )[i % size],
            ),
        }
    }
}

/// What the compressor makes of a chain under `settings`: the chain itself
/// where compression is off or there is nothing to compress, else every
/// level compressed in the layout that the base level's alpha selects.
pub open spec fn compressed_chain(chain: Seq<LevelModel>, settings: MipmapGeneratorSettings)
    -> PayloadModel {
    if settings.compression.is_none() || chain.len() == 0 {
        PayloadModel { encoding: Encoding::Raw, levels: chain }
    } else {
        let encoding = selected_encoding(alpha_in_use(chain[0].data));
        PayloadModel {
            encoding,
            levels: Seq::new(
                chain.len(),
                |k: int| compressed_level(chain[k], encoding, settings.search_steps() as int),
            ),
        }
    }
}

proof fn lemma_channel_range(block: Seq<u8>, c: int, n: nat)
    ensures
        0 <= channel_min(block, c, n) <= 255,
        0 <= channel_max(block, c, n) <= 255,
        n >= 1 ==> channel_min(block, c, n) <= channel_max(block, c, n),
        n == 0 ==> channel_min(block, c, n) == 255 && channel_max(block, c, n) == 0,
    decreases n,
{
    if n > 0 {
        lemma_channel_range(block, c, (n - 1) as nat);
    }
}

proof fn lemma_inset_range(max: int, min: int, t: int)
    requires
        0 <= min <= max <= 255,
        0 <= t <= 8,
    ensures
        min <= inset_low(max, min, t) <= inset_high(max, min, t) <= max,
{
    let r = max - min;
    assert(0 <= r * t <= 8 * r) by (nonlinear_arith)
        requires
            0 <= r,
            0 <= t <= 8,
    ;
}

/// With an inset of at most eight sixteenths the upper endpoint of a colour
/// block is not below the lower one, so a decoder reads four colours, or
/// two equal endpoints with every index zero.
pub proof fn lemma_endpoints_ordered(block: Seq<u8>, t: int)
    requires
        0 <= t <= 8,
    ensures
        color565(q_high(block, 0, t), q_high(block, 1, t), q_high(block, 2, t)) >= color565(
            q_low(block, 0, t),
            q_low(block, 1, t),
            q_low(block, 2, t),
        ),
        0 <= color565(q_low(block, 0, t), q_low(block, 1, t), q_low(block, 2, t)),
        color565(q_high(block, 0, t), q_high(block, 1, t), q_high(block, 2, t)) <= 0xffff,
{
    lemma_channel_range(block, 0, 16);
    lemma_channel_range(block, 1, 16);
    lemma_channel_range(block, 2, 16);
    lemma_inset_range(channel_max(block, 0, 16), channel_min(block, 0, 16), t);
    lemma_inset_range(channel_max(block, 1, 16), channel_min(block, 1, 16), t);
    lemma_inset_range(channel_max(block, 2, 16), channel_min(block, 2, 16), t);
}

/// Checks the alpha of every texel of the base level.
pub fn detect_alpha(data: &Vec<u8>) -> (used: bool)
    ensures
        used == alpha_in_use(data@),
{
    let mut i: usize = 0;
    while i < data.len() / 4
        invariant
            i <= data.len() / 4,
            forall|j: int| 0 <= j < i ==> #[trigger] data[4 * j + 3] == 255,
        decreases data.len() / 4 - i,
    {
        if data[4 * i + 3] != 255 {
            return true;
        }
        i += 1;
    }
    false
}

/// Picks the layout for a chain from whether its alpha is in use.
pub fn select_encoding(alpha_used: bool) -> (encoding: Encoding)
    ensures
        encoding == selected_encoding(alpha_used),
        block_bytes(encoding) == if alpha_used {
            16int
        } else {
            8int
        },
{
    if alpha_used {
        Encoding::Bc3
    } else {
        Encoding::Bc1
    }
}

fn gather_block(level: &MipLevel, bx: u32, by: u32) -> (block: Vec<u8>)
    requires
        level@.is_raw(),
        bx < blocks_across(level.width as int),
        by < blocks_across(level.height as int),
    ensures
        block@ == block_of(level@, bx as int, by as int),
        block.len() == 64,
{
    let w: usize = level.width as usize;
    let h: usize = level.height as usize;
    let ghost goal = block_of(level@, bx as int, by as int);
    let mut block: Vec<u8> = Vec::new();
    let mut j: usize = 0;
    while j < 64
        invariant
            level@.is_raw(),
            w == level.width,
            h == level.height,
            bx < blocks_across(level.width as int),
            by < blocks_across(level.height as int),
            goal == block_of(level@, bx as int, by as int),
            j <= 64,
            block.len() == j,
            forall|m: int| 0 <= m < j ==> block[m] == goal[m],
        decreases 64 - j,
    {
        let col: u64 = 4 * (bx as u64) + ((j / 4) % 4) as u64;
        let row: u64 = 4 * (by as u64) + ((j / 4) / 4) as u64;
        let x: usize = if col < w as u64 { col as usize } else { w - 1 };
        let y: usize = if row < h as u64 { row as usize } else { h - 1 };
        proof {
            crate::mipmap::lemma_texel_index(w as int, h as int, x as int, y as int, (j % 4) as int);
            assert(w * h * 4 == level.data.len());
        }
        block.push(level.data[(y * w + x) * 4 + j % 4]);
        j += 1;
    }
    assert(block@ =~= goal);
    block
}

fn channel_extent(block: &Vec<u8>, c: usize) -> (extent: (u8, u8))
    requires
        block.len() == 64,
        c < 4,
    ensures
        extent.0 == channel_max(block@, c as int, 16),
        extent.1 == channel_min(block@, c as int, 16),
        extent.1 <= extent.0,
{
    let mut hi: u8 = 0;
    let mut lo: u8 = 255;
    let mut n: usize = 0;
    while n < 16
        invariant
            block.len() == 64,
            c < 4,
            n <= 16,
            hi == channel_max(block@, c as int, n as nat),
            lo == channel_min(block@, c as int, n as nat),
        decreases 16 - n,
    {
        let v = block[4 * n + c];
        if v > hi {
            hi = v;
        }
        if v < lo {
            lo = v;
        }
        n += 1;
    }
    proof {
        lemma_channel_range(block@, c as int, 16);
    }
    (hi, lo)
}

fn quantize_endpoints(max: u8, min: u8, t: u8, c: usize) -> (q: (u32, u32))
    requires
        min <= max,
        t <= MAX_INSET,
        c < 3,
    ensures
        q.0 == quantized(inset_high(max as int, min as int, t as int), c as int),
        q.1 == quantized(inset_low(max as int, min as int, t as int), c as int),
        q.1 <= q.0,
        q.0 <= if c == 1 {
            63int
        } else {
            31int
        },
{
    proof {
        lemma_inset_range(max as int, min as int, t as int);
    }
    let range: u32 = (max - min) as u32;
    assert(range * t <= 255 * 8) by (nonlinear_arith)
        requires
            0 <= range <= 255,
            0 <= t <= 8,
    ;
    let shift: u32 = range * (t as u32) / 16;
    let hi: u32 = max as u32 - shift;
    let lo: u32 = min as u32 + shift;
    if c == 1 {
        (hi / 4, lo / 4)
    } else {
        (hi / 8, lo / 8)
    }
}

fn palette_entry(qh: u32, ql: u32, c: usize, k: usize) -> (v: u32)
    requires
        c < 3,
        k < 4,
        ql <= qh,
        qh <= if c == 1 {
            63int
        } else {
            31int
        },
    ensures
        v == interpolated(expanded(qh as int, c as int), expanded(ql as int, c as int), k as int),
        v <= 255,
{
    let e0: u32 = if c == 1 { qh * 4 + qh / 16 } else { qh * 8 + qh / 4 };
    let e1: u32 = if c == 1 { ql * 4 + ql / 16 } else { ql * 8 + ql / 4 };
    if k == 0 {
        e0
    } else if k == 1 {
        e1
    } else if k == 2 {
        (2 * e0 + e1) / 3
    } else {
        (e0 + 2 * e1) / 3
    }
}

fn square_difference(a: u32, b: u32) -> (d: u32)
    requires
        a <= 255,
        b <= 255,
    ensures
        d == sq(a - b),
        d <= 65025,
{
    let diff: u32 = if a >= b { a - b } else { b - a };
    assert(diff * diff == (a - b) * (a - b) && diff * diff <= 65025) by (nonlinear_arith)
        requires
            0 <= diff <= 255,
            diff == a - b || diff == b - a,
    ;
    diff * diff
}

/// Encodes the colours of one block with inset `t`, and measures the error.
fn color_candidate(block: &Vec<u8>, t: u8) -> (out: (Vec<u8>, u32))
    requires
        block.len() == 64,
        t <= MAX_INSET,
    ensures
        out.0@ == color_block(block@, t as int),
        out.0.len() == 8,
        out.1 == block_error(block@, t as int, 16),
{
    let mut qh: Vec<u32> = Vec::new();
    let mut ql: Vec<u32> = Vec::new();
    let mut c: usize = 0;
    while c < 3
        invariant
            block.len() == 64,
            t <= MAX_INSET,
            c <= 3,
            qh.len() == c,
            ql.len() == c,
            forall|m: int|
                0 <= m < c ==> qh[m] == q_high(block@, m, t as int) && ql[m] == q_low(
                    block@,
                    m,
                    t as int,
                ) && ql[m] <= qh[m] && qh[m] <= if m == 1 {
                    63int
                } else {
                    31int
                },
        decreases 3 - c,
    {
        let extent = channel_extent(block, c);
        let q = quantize_endpoints(extent.0, extent.1, t, c);
        qh.push(q.0);
        ql.push(q.1);
        c += 1;
    }
    let mut indices: Vec<u32> = Vec::new();
    let mut error: u32 = 0;
    let mut i: usize = 0;
    while i < 16
        invariant
            block.len() == 64,
            t <= MAX_INSET,
            qh.len() == 3,
            ql.len() == 3,
            forall|m: int|
                0 <= m < 3 ==> qh[m] == q_high(block@, m, t as int) && ql[m] == q_low(
                    block@,
                    m,
                    t as int,
                ) && ql[m] <= qh[m] && qh[m] <= if m == 1 {
                    63int
                } else {
                    31int
                },
            i <= 16,
            indices.len() == i,
            forall|m: int| 0 <= m < i ==> indices[m] == color_index(block@, t as int, m),
            forall|m: int| 0 <= m < i ==> indices[m] < 4,
            error == block_error(block@, t as int, i as nat),
            error <= i * 195075,
        decreases 16 - i,
    {
        let ghost costs = texel_costs(block@, t as int, i as int);
        let mut best: u32 = 0;
        let mut best_cost: u32 = 0;
        let mut k: usize = 0;
        while k < 4
            invariant
                block.len() == 64,
                t <= MAX_INSET,
                i < 16,
                qh.len() == 3,
                ql.len() == 3,
                forall|m: int|
                    0 <= m < 3 ==> qh[m] == q_high(block@, m, t as int) && ql[m] == q_low(
                        block@,
                        m,
                        t as int,
                    ) && ql[m] <= qh[m] && qh[m] <= if m == 1 {
                        63int
                    } else {
                        31int
                    },
                costs == texel_costs(block@, t as int, i as int),
                k <= 4,
                best < 4,
                k >= 1 ==> best == first_min(costs, k as nat),
                k >= 1 ==> best_cost == costs[best as int],
                best_cost <= 195075,
            decreases 4 - k,
        {
            let d0 = square_difference(block[4 * i] as u32, palette_entry(qh[0], ql[0], 0, k));
            let d1 = square_difference(block[4 * i + 1] as u32, palette_entry(qh[1], ql[1], 1, k));
            let d2 = square_difference(block[4 * i + 2] as u32, palette_entry(qh[2], ql[2], 2, k));
            let cost: u32 = d0 + d1 + d2;
            assert(cost == costs[k as int]);
            if k == 0 || cost < best_cost {
                best = k as u32;
                best_cost = cost;
            }
            k += 1;
        }
        indices.push(best);
        error = error + best_cost;
        i += 1;
    }
    let c0: u32 = qh[0] * 2048 + qh[1] * 32 + qh[2];
    let c1: u32 = ql[0] * 2048 + ql[1] * 32 + ql[2];
    let mut bytes: Vec<u8> = Vec::new();
    bytes.push((c0 % 256) as u8);
    bytes.push((c0 / 256) as u8);
    bytes.push((c1 % 256) as u8);
    bytes.push((c1 / 256) as u8);
    let mut j: usize = 0;
    while j < 4
        invariant
            j <= 4,
            indices.len() == 16,
            forall|m: int| 0 <= m < 16 ==> indices[m] == color_index(block@, t as int, m),
            forall|m: int| 0 <= m < 16 ==> indices[m] < 4,
            bytes.len() == 4 + j,
            bytes[0] == (c0 % 256) as u8,
            bytes[1] == (c0 / 256) as u8,
            bytes[2] == (c1 % 256) as u8,
            bytes[3] == (c1 / 256) as u8,
            forall|m: int| 0 <= m < j ==> bytes[4 + m] == index_row(block@, t as int, m) as u8,
        decreases 4 - j,
    {
        let row: u32 = indices[4 * j] + 4 * indices[4 * j + 1] + 16 * indices[4 * j + 2] + 64
            * indices[4 * j + 3];
        bytes.push(row as u8);
        j += 1;
    }
    assert(bytes@ =~= color_block(block@, t as int)) by {
        reveal(color_block);
    }
    (bytes, error)
}

/// Encodes the colours of one block: tries the insets `0..=steps` and keeps
/// the first of least error.
fn encode_color(block: &Vec<u8>, steps: u8) -> (bytes: Vec<u8>)
    requires
        block.len() == 64,
    ensures
        bytes@ == color_block(block@, best_inset(block@, steps as int)),
        bytes.len() == 8,
{
    let steps = if steps > MAX_INSET { MAX_INSET } else { steps };
    let ghost errors = inset_errors(block@, steps as int);
    let first = color_candidate(block, 0);
    let mut best_bytes = first.0;
    let mut best_error = first.1;
    let ghost mut best: int = 0;
    let mut t: u8 = 1;
    assert(errors[0] == block_error(block@, 0, 16));
    while t <= steps
        invariant
            block.len() == 64,
            steps <= MAX_INSET,
            errors == inset_errors(block@, steps as int),
            1 <= t <= steps + 1,
            best == first_min(errors, t as nat),
            0 <= best < t,
            best_error == errors[best],
            best_bytes@ == color_block(block@, best),
            best_bytes.len() == 8,
        decreases steps + 1 - t,
    {
        let candidate = color_candidate(block, t);
        assert(errors[t as int] == block_error(block@, t as int, 16));
        assert(first_min(errors, (t + 1) as nat) == if errors[t as int] < errors[best] {
            t as int
        } else {
            best
        });
        if candidate.1 < best_error {
            best_bytes = candidate.0;
            best_error = candidate.1;
            proof {
                best = t as int;
            }
        }
        t += 1;
    }
    best_bytes
}

fn nearest_alpha(alpha: u8, a0: u8, a1: u8, Ghost(block): Ghost<Seq<u8>>, Ghost(i): Ghost<int>) -> (index: u32)
    requires
        a1 <= a0,
        a0 == channel_max(block, 3, 16),
        a1 == channel_min(block, 3, 16),
        alpha == block[4 * i + 3],
    ensures
        index == alpha_index(block, i),
        index < 8,
{
    let ghost costs = alpha_costs(block, i);
    let mut best: u32 = 0;
    let mut best_cost: u32 = 0;
    let mut k: u32 = 0;
    while k < 8
        invariant
            a1 <= a0,
            a0 == channel_max(block, 3, 16),
            a1 == channel_min(block, 3, 16),
            alpha == block[4 * i + 3],
            costs == alpha_costs(block, i),
            k <= 8,
            best < 8,
            k >= 1 ==> best == first_min(costs, k as nat),
            k >= 1 ==> best_cost == costs[best as int],
        decreases 8 - k,
    {
        let entry: u32 = if k == 0 {
            a0 as u32
        } else if k == 1 {
            a1 as u32
        } else {
            assert((8 - k) * a0 + (k - 1) * a1 <= 7 * 255) by (nonlinear_arith)
                requires
                    2 <= k < 8,
                    0 <= a0 <= 255,
                    0 <= a1 <= 255,
            ;
            ((8 - k) * (a0 as u32) + (k - 1) * (a1 as u32)) / 7
        };
        let cost: u32 = if alpha as u32 >= entry { alpha as u32 - entry } else { entry - alpha as u32 };
        assert(cost == costs[k as int]);
        if k == 0 || cost < best_cost {
            best = k;
            best_cost = cost;
        }
        k += 1;
    }
    best
}

/// Encodes the alpha of one block.
fn encode_alpha(block: &Vec<u8>) -> (bytes: Vec<u8>)
    requires
        block.len() == 64,
    ensures
        bytes@ == alpha_block(block@),
        bytes.len() == 8,
{
    let extent = channel_extent(block, 3);
    let mut indices: Vec<u32> = Vec::new();
    let mut i: usize = 0;
    while i < 16
        invariant
            block.len() == 64,
            extent.0 == channel_max(block@, 3, 16),
            extent.1 == channel_min(block@, 3, 16),
            extent.1 <= extent.0,
            i <= 16,
            indices.len() == i,
            forall|m: int| 0 <= m < i ==> indices[m] == alpha_index(block@, m),
            forall|m: int| 0 <= m < i ==> indices[m] < 8,
        decreases 16 - i,
    {
        let index = nearest_alpha(block[4 * i + 3], extent.0, extent.1, Ghost(block@), Ghost(i as int));
        indices.push(index);
        i += 1;
    }
    let mut bytes: Vec<u8> = Vec::new();
    bytes.push(extent.0);
    bytes.push(extent.1);
    let mut g: usize = 0;
    while g < 2
        invariant
            g <= 2,
            indices.len() == 16,
            forall|m: int| 0 <= m < 16 ==> indices[m] == alpha_index(block@, m),
            forall|m: int| 0 <= m < 16 ==> indices[m] < 8,
            bytes.len() == 2 + 3 * g,
            bytes[0] == extent.0,
            bytes[1] == extent.1,
            forall|m: int|
                0 <= m < g ==> bytes[2 + 3 * m] == (alpha_group(block@, m) % 256) as u8 && bytes[3
                    + 3 * m] == (alpha_group(block@, m) / 256 % 256) as u8 && bytes[4 + 3 * m] == (
                alpha_group(block@, m) / 65536) as u8,
        decreases 2 - g,
    {
        let group: u32 = indices[8 * g] + 8 * indices[8 * g + 1] + 64 * indices[8 * g + 2] + 512
            * indices[8 * g + 3] + 4096 * indices[8 * g + 4] + 32768 * indices[8 * g + 5] + 262144
            * indices[8 * g + 6] + 2097152 * indices[8 * g + 7];
        assert(group == alpha_group(block@, g as int));
        bytes.push((group % 256) as u8);
        bytes.push((group / 256 % 256) as u8);
        bytes.push((group / 65536) as u8);
        g += 1;
    }
    assert(bytes@ =~= alpha_block(block@));
    bytes
}

proof fn lemma_block_index(across: int, down: int, bx: int, by: int, size: int, r: int)
    requires
        0 <= bx < across,
        0 <= by < down,
        0 <= r < size,
    ensures
        0 <= by * across + bx < across * down,
        0 <= (by * across + bx) * size + r < across * down * size,
        ((by * across + bx) * size + r) / size == by * across + bx,
        ((by * across + bx) * size + r) % size == r,
        (by * across + bx) % across == bx,
        (by * across + bx) / across == by,
{
    let b = by * across + bx;
    assert(0 <= by * across <= (down - 1) * across) by (nonlinear_arith)
        requires
            0 <= by <= down - 1,
            0 < across,
    ;
    assert((down - 1) * across == across * down - across) by (nonlinear_arith);
    assert((b + 1) * size <= across * down * size) by (nonlinear_arith)
        requires
            0 <= b + 1 <= across * down,
            0 < size,
    ;
    assert((b + 1) * size == b * size + size) by (nonlinear_arith);
    assert(0 <= b * size) by (nonlinear_arith)
        requires
            0 <= b,
            0 < size,
    ;
    vstd::arithmetic::div_mod::lemma_fundamental_div_mod_converse(b, across, by, bx);
    vstd::arithmetic::div_mod::lemma_fundamental_div_mod_converse(b * size + r, size, b, r);
}

/// Compresses one level, block by block.
pub fn compress_level(level: &MipLevel, encoding: Encoding, steps: u8) -> (out: MipLevel)
    requires
        level@.is_raw(),
    ensures
        out@ == compressed_level(level@, encoding, steps as int),
{
    if encoding == Encoding::Raw {
        return level.duplicate();
    }
    let across: u32 = (level.width - 1) / 4 + 1;
    let down: u32 = (level.height - 1) / 4 + 1;
    let ghost size = block_bytes(encoding);
    let ghost goal = compressed_level(level@, encoding, steps as int);
    let mut data: Vec<u8> = Vec::new();
    let mut by: u32 = 0;
    while by < down
        invariant
            level@.is_raw(),
            encoding != Encoding::Raw,
            across == blocks_across(level.width as int),
            down == blocks_across(level.height as int),
            size == block_bytes(encoding),
            goal == compressed_level(level@, encoding, steps as int),
            by <= down,
            data.len() == by * across * size,
            forall|i: int| 0 <= i < data.len() ==> data[i] == goal.data[i],
        decreases down - by,
    {
        let mut bx: u32 = 0;
        while bx < across
            invariant
                level@.is_raw(),
                encoding != Encoding::Raw,
                across == blocks_across(level.width as int),
                down == blocks_across(level.height as int),
                size == block_bytes(encoding),
                goal == compressed_level(level@, encoding, steps as int),
                by < down,
                bx <= across,
                data.len() == (by * across + bx) * size,
                forall|i: int| 0 <= i < data.len() ==> data[i] == goal.data[i],
            decreases across - bx,
        {
            let block = gather_block(level, bx, by);
            let ghost before = data@;
            let ghost encoded = encoded_block(block@, encoding, steps as int);
            if encoding == Encoding::Bc3 {
                let alpha = encode_alpha(&block);
                crate::bytes::push_all(&mut data, &alpha);
            }
            let colors = encode_color(&block, steps);
            crate::bytes::push_all(&mut data, &colors);
            proof {
                assert(data@ =~= before + encoded);
                assert(encoded.len() == size);
                assert forall|i: int| 0 <= i < data.len() implies data[i] == goal.data[i] by {
                    if i >= before.len() {
                        let r = i - before.len();
                        lemma_block_index(across as int, down as int, bx as int, by as int, size, r);
                        assert(data[i] == encoded[r]);
                    }
                }
                assert((by * across + bx) * size + size == (by * across + bx + 1) * size)
                    by (nonlinear_arith);
            }
            bx += 1;
        }
        proof {
            assert((by * across + across) * size == (by + 1) * across * size) by (nonlinear_arith);
        }
        by += 1;
    }
    proof {
        assert(down * across * size == across * down * size) by (nonlinear_arith);
    }
    let out = MipLevel { width: level.width, height: level.height, data };
    proof {
        assert(out@.data =~= goal.data);
    }
    out
}

/// Compresses a chain under `settings`. The alpha of the base level
/// selects the layout for every level; with compression off the chain
/// passes through as it is.
pub fn compress_chain(chain: Vec<MipLevel>, settings: &MipmapGeneratorSettings) -> (payload:
    TexturePayload)
    requires
        forall|k: int| 0 <= k < chain.len() ==> (#[trigger] chain[k])@.is_raw(),
    ensures
        payload@ == compressed_chain(level_models(chain@), *settings),
{
    if settings.compression.is_none() || chain.len() == 0 {
        return TexturePayload { encoding: Encoding::Raw, levels: chain };
    }
    let encoding = select_encoding(detect_alpha(&chain[0].data));
    let steps = settings.search_steps();
    let ghost goal = compressed_chain(level_models(chain@), *settings);
    let mut levels: Vec<MipLevel> = Vec::new();
    let mut k: usize = 0;
    while k < chain.len()
        invariant
            forall|m: int| 0 <= m < chain.len() ==> (#[trigger] chain[m])@.is_raw(),
            k <= chain.len(),
            levels.len() == k,
            steps == settings.search_steps(),
            forall|m: int|
                0 <= m < k ==> (#[trigger] levels[m])@ == compressed_level(
                    chain[m]@,
                    encoding,
                    steps as int,
                ),
        decreases chain.len() - k,
    {
        levels.push(compress_level(&chain[k], encoding, steps));
        k += 1;
    }
    let payload = TexturePayload { encoding, levels };
    proof {
        assert(payload@.levels =~= goal.levels);
    }
    payload
}

} // verus!
