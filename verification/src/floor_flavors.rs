//! Floor flavors: pixel transforms of base floor atlases. The flooring
//! flavor squares every authoring tile off to its grid footprint.

use vstd::prelude::*;

use crate::floor_render::{authoring_index_to_mask, index_to_mask_spec};

verus! {

/// The atlas is the 4-column authoring layout of whole `t`-pixel tiles in
/// 4-row variant blocks, and `len` bytes hold every RGBA8 pixel.
pub open spec fn flooring_layout_ok(len: int, w: int, h: int, t: int) -> bool {
    &&& t > 0 && w > 0 && h > 0
    &&& w % t == 0 && h % t == 0
    &&& len >= w * h * 4
    &&& w / t == 4
    &&& (h / t) % 4 == 0
}

/// Corner-mask bit driving the quadrant `(qx, qy)` of a tile (`0` left/top
/// half, `1` right/bottom half).
pub open spec fn quadrant_bit(qx: int, qy: int) -> u8 {
    if qx == 0 && qy == 1 {
        1
    } else if qx == 1 && qy == 1 {
        2
    } else if qx == 0 && qy == 0 {
        4
    } else {
        8
    }
}

/// Row of the solid interior tile (authoring index 6: column 2, row 1) of
/// variant block `block`, in pixels.
pub open spec fn interior_y0(block: int, t: int) -> int {
    (block * 4 + 1) * t
}

/// Every pixel of the interior tile of `block` is fully transparent.
pub open spec fn interior_empty(data: Seq<u8>, w: int, t: int, block: int) -> bool {
    forall|dx: int, dy: int| 0 <= dx < t && 0 <= dy < t ==>
        #[trigger] data[((interior_y0(block, t) + dy) * w + 2 * t + dx) * 4 + 3] == 0
}

/// Output byte `k` (pixel `k / 4`, channel `k % 4`) of the flooring
/// transform. In a block whose interior tile is empty the byte is copied;
/// otherwise each quadrant that the tile's mask sets is filled from the
/// interior tile's opposite quadrant, and every other byte is zero.
pub open spec fn flooring_byte(data: Seq<u8>, w: int, t: int, k: int) -> u8 {
    let p = k / 4;
    let c = k % 4;
    let x = p % w;
    let y = p / w;
    let block = y / (4 * t);
    if interior_empty(data, w, t, block) {
        data[k]
    } else {
        let half = t / 2;
        let tx = x % t;
        let ty = y % t;
        let mask = index_to_mask_spec(((y / t) % 4) * 4 + x / t) as u8;
        if tx < 2 * half && ty < 2 * half {
            let qx: int = if tx < half { 0 } else { 1 };
            let qy: int = if ty < half { 0 } else { 1 };
            if mask & quadrant_bit(qx, qy) != 0 {
                let sx = 2 * t + (1 - qx) * half + (tx - qx * half);
                let sy = interior_y0(block, t) + (1 - qy) * half + (ty - qy * half);
                data[(sy * w + sx) * 4 + c]
            } else {
                0
            }
        } else {
            0
        }
    }
}

/// Byte `k` of an `w × h` RGBA8 image lies inside it.
proof fn lemma_pixel_fields(w: int, h: int, k: int)
    requires
        w > 0,
        h > 0,
        0 <= k < w * h * 4,
    ensures
        0 <= k / 4 < w * h,
        0 <= (k / 4) % w < w,
        0 <= (k / 4) / w < h,
        0 <= k % 4 < 4,
{
    assert(0 <= k / 4 < w * h) by (nonlinear_arith)
        requires
            0 <= k < w * h * 4,
    ;
    let p = k / 4;
    assert(0 <= p / w < h) by (nonlinear_arith)
        requires
            0 <= p < w * h,
            w > 0,
    ;
    assert(0 <= p % w < w) by (nonlinear_arith)
        requires
            w > 0,
            0 <= p,
    ;
}

/// The rows of block `block` lie inside the image, interior tile included.
proof fn lemma_block_rows(h: int, t: int, y: int)
    requires
        t > 0,
        h > 0,
        h % t == 0,
        (h / t) % 4 == 0,
        0 <= y < h,
    ensures
        0 <= y / (4 * t),
        (y / (4 * t) * 4 + 2) * t <= h,
        interior_y0(y / (4 * t), t) + t <= h,
{
    let b = y / (4 * t);
    let nb = (h / t) / 4;
    assert(h == 4 * t * nb) by (nonlinear_arith)
        requires
            t > 0,
            h % t == 0,
            (h / t) % 4 == 0,
            nb == (h / t) / 4,
    {
        assert(h == t * (h / t));
        assert(h / t == 4 * nb);
    }
    assert(0 <= b < nb) by (nonlinear_arith)
        requires
            t > 0,
            0 <= y < h,
            h == 4 * t * nb,
            b == y / (4 * t),
    ;
    assert((b * 4 + 2) * t <= h) by (nonlinear_arith)
        requires
            t > 0,
            0 <= b < nb,
            h == 4 * t * nb,
    ;
    assert((b * 4 + 1) * t + t == (b * 4 + 2) * t) by (nonlinear_arith);
}

/// A pixel of the interior tile of `block` lies inside the image.
proof fn lemma_interior_index(w: int, h: int, t: int, block: int, dx: int, dy: int, c: int)
    requires
        t > 0,
        w == 4 * t,
        0 <= block,
        interior_y0(block, t) + t <= h,
        0 <= dx < t,
        0 <= dy < t,
        0 <= c < 4,
    ensures
        0 <= ((interior_y0(block, t) + dy) * w + 2 * t + dx) * 4 + c < w * h * 4,
{
    let sy = interior_y0(block, t) + dy;
    assert(0 <= sy) by (nonlinear_arith)
        requires
            t > 0,
            0 <= block,
            0 <= dy,
            sy == (block * 4 + 1) * t + dy,
    ;
    assert(0 <= (sy * w + 2 * t + dx) * 4 + c < w * h * 4) by (nonlinear_arith)
        requires
            t > 0,
            w == 4 * t,
            0 <= sy < h,
            0 <= dx < t,
            0 <= c < 4,
    ;
}

/// Whether the interior tile of `block` is fully transparent.
fn block_interior_empty(data: &[u8], w: usize, h: usize, t: usize, block: usize) -> (b: bool)
    requires
        t > 0,
        w == 4 * t,
        interior_y0(block as int, t as int) + t <= h,
        data@.len() >= w * h * 4,
        w * h * 4 <= usize::MAX,
    ensures
        b == interior_empty(data@, w as int, t as int, block as int),
{
    proof {
        assert(block * 4 + 1 <= (block * 4 + 1) * t) by (nonlinear_arith)
            requires
                t > 0,
                0 <= block,
        ;
        assert(h <= w * h * 4) by (nonlinear_arith)
            requires
                w > 0,
                0 <= h,
        ;
    }
    let iy0 = (block * 4 + 1) * t;
    let mut dy: usize = 0;
    while dy < t
        invariant
            t > 0,
            w == 4 * t,
            iy0 == interior_y0(block as int, t as int),
            iy0 + t <= h,
            data@.len() >= w * h * 4,
            w * h * 4 <= usize::MAX,
            dy <= t,
            forall|ddx: int, ddy: int| 0 <= ddx < t && 0 <= ddy < dy ==>
                #[trigger] data@[((interior_y0(block as int, t as int) + ddy) * w + 2 * t + ddx) * 4 + 3] == 0,
        decreases t - dy,
    {
        let mut dx: usize = 0;
        while dx < t
            invariant
                t > 0,
                w == 4 * t,
                iy0 == interior_y0(block as int, t as int),
                iy0 + t <= h,
                data@.len() >= w * h * 4,
                w * h * 4 <= usize::MAX,
                dy < t,
                dx <= t,
                forall|ddx: int, ddy: int| 0 <= ddx < t && 0 <= ddy < dy ==>
                    #[trigger] data@[((interior_y0(block as int, t as int) + ddy) * w + 2 * t + ddx) * 4 + 3] == 0,
                forall|ddx: int| 0 <= ddx < dx ==>
                    #[trigger] data@[((interior_y0(block as int, t as int) + dy) * w + 2 * t + ddx) * 4 + 3] == 0,
            decreases t - dx,
        {
            proof {
                lemma_interior_index(w as int, h as int, t as int, block as int, dx as int, dy as int, 3);
            }
            let i = ((iy0 + dy) * w + 2 * t + dx) * 4 + 3;
            if data[i] != 0 {
                return false;
            }
            dx = dx + 1;
        }
        dy = dy + 1;
    }
    true
}

/// The source byte of a set quadrant lies inside the image.
proof fn lemma_source_index(w: int, h: int, t: int, block: int, tx: int, ty: int, c: int, qx: int, qy: int)
    requires
        t > 0,
        w == 4 * t,
        0 <= block,
        interior_y0(block, t) + t <= h,
        0 <= tx < 2 * (t / 2),
        0 <= ty < 2 * (t / 2),
        qx == (if tx < t / 2 { 0int } else { 1int }),
        qy == (if ty < t / 2 { 0int } else { 1int }),
        0 <= c < 4,
    ensures
        ({
            let half = t / 2;
            let sx = 2 * t + (1 - qx) * half + (tx - qx * half);
            let sy = interior_y0(block, t) + (1 - qy) * half + (ty - qy * half);
            0 <= (sy * w + sx) * 4 + c < w * h * 4
        }),
{
    let half = t / 2;
    assert(2 * half <= t) by (nonlinear_arith)
        requires
            t > 0,
            half == t / 2,
    ;
    let dx = (1 - qx) * half + (tx - qx * half);
    let dy = (1 - qy) * half + (ty - qy * half);
    lemma_select_half(qx, half);
    lemma_select_half(qy, half);
    lemma_interior_index(w, h, t, block, dx, dy, c);
}

/// Multiplying a half-size by a `0`/`1` selector.
proof fn lemma_select_half(q: int, half: int)
    requires
        q == 0 || q == 1,
    ensures
        q == 0 ==> (1 - q) * half == half && q * half == 0,
        q == 1 ==> (1 - q) * half == 0 && q * half == half,
{
    if q == 0 {
        assert((1 - q) * half == half && q * half == 0) by (nonlinear_arith)
            requires
                q == 0,
        ;
    } else {
        assert((1 - q) * half == 0 && q * half == half) by (nonlinear_arith)
            requires
                q == 1,
        ;
    }
}

/// Applies the flooring flavor to a row-major RGBA8 atlas of `width ×
/// height` pixels cut into `tile_size_px` tiles: see `flooring_byte`; bytes
/// past the image are copied through, so the output is as long as the
/// input. Any other layout is returned unchanged.
pub fn apply_flooring(data: &[u8], width: u32, height: u32, tile_size_px: u32) -> (out: Vec<u8>)
    requires
        width as int * height as int * 4 <= usize::MAX,
    ensures
        out@.len() == data@.len(),
        !flooring_layout_ok(data@.len() as int, width as int, height as int, tile_size_px as int) ==> out@ == data@,
        flooring_layout_ok(data@.len() as int, width as int, height as int, tile_size_px as int) ==> {
            &&& forall|k: int| 0 <= k < width * height * 4 ==> #[trigger] out@[k] == flooring_byte(data@, width as int, tile_size_px as int, k)
            &&& forall|k: int| width * height * 4 <= k < data@.len() ==> #[trigger] out@[k] == data@[k]
        },
{
    let w = width as usize;
    let h = height as usize;
    let t = tile_size_px as usize;
    if t == 0 || w == 0 || h == 0 || w % t != 0 || h % t != 0 || data.len() < w * h * 4 || w / t != 4 || (h / t) % 4 != 0 {
        return copy_bytes(data);
    }
    let n = w * h * 4;
    let half = t / 2;
    proof {
        assert(w == 4 * t) by (nonlinear_arith)
            requires
                t > 0,
                w % t == 0,
                w / t == 4,
        {
            assert(w == t * (w / t) + w % t);
        }
    }
    let mut out: Vec<u8> = Vec::new();
    let mut k: usize = 0;
    while k < n
        invariant
            t > 0,
            w > 0,
            h > 0,
            w == 4 * t,
            h % t == 0,
            (h / t) % 4 == 0,
            half == t / 2,
            n == w * h * 4,
            n <= usize::MAX,
            data@.len() >= n,
            w == width as int,
            t == tile_size_px as int,
            k <= n,
            out@.len() == k,
            forall|j: int| 0 <= j < k ==> #[trigger] out@[j] == flooring_byte(data@, w as int, t as int, j),
        decreases n - k,
    {
        proof {
            lemma_pixel_fields(w as int, h as int, k as int);
        }
        let p = k / 4;
        let c = k % 4;
        let x = p % w;
        let y = p / w;
        let block = y / (4 * t);
        proof {
            lemma_block_rows(h as int, t as int, y as int);
        }
        let empty = block_interior_empty(data, w, h, t, block);
        let b: u8 = if empty {
            data[k]
        } else {
            let tx = x % t;
            let ty = y % t;
            proof {
                assert(0 <= ((y / t) % 4) * 4 + x / t < 16) by (nonlinear_arith)
                    requires
                        t > 0,
                        0 <= x < 4 * t,
                        0 <= y,
                ;
            }
            let mask = authoring_index_to_mask(((y / t) % 4) * 4 + x / t);
            if tx < 2 * half && ty < 2 * half {
                let qx: usize = if tx < half { 0 } else { 1 };
                let qy: usize = if ty < half { 0 } else { 1 };
                let bit: u8 = if qx == 0 && qy == 1 {
                    1
                } else if qx == 1 && qy == 1 {
                    2
                } else if qx == 0 && qy == 0 {
                    4
                } else {
                    8
                };
                if mask & bit != 0 {
                    proof {
                        lemma_source_index(w as int, h as int, t as int, block as int, tx as int, ty as int, c as int, qx as int, qy as int);
                    }
                    let sx = 2 * t + (1 - qx) * half + (tx - qx * half);
                    let sy = (block * 4 + 1) * t + (1 - qy) * half + (ty - qy * half);
                    data[(sy * w + sx) * 4 + c]
                } else {
                    0
                }
            } else {
                0
            }
        };
        out.push(b);
        k = k + 1;
    }
    let mut r: usize = n;
    while r < data.len()
        invariant
            n <= r <= data@.len(),
            out@.len() == r,
            forall|j: int| 0 <= j < n ==> #[trigger] out@[j] == flooring_byte(data@, w as int, t as int, j),
            forall|j: int| n <= j < r ==> #[trigger] out@[j] == data@[j],
        decreases data@.len() - r,
    {
        out.push(data[r]);
        r = r + 1;
    }
    out
}

/// A copy of `data`.
fn copy_bytes(data: &[u8]) -> (out: Vec<u8>)
    ensures
        out@ == data@,
{
    let mut out: Vec<u8> = Vec::new();
    let mut i: usize = 0;
    while i < data.len()
        invariant
            i <= data@.len(),
            out@ == data@.take(i as int),
        decreases data@.len() - i,
    {
        out.push(data[i]);
        assert(data@.take(i + 1) == data@.take(i as int).push(data@[i as int]));
        i = i + 1;
    }
    assert(data@.take(data@.len() as int) == data@);
    out
}

} // verus!
