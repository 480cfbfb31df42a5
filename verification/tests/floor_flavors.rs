use tbd_mud::floor_flavors::apply_flooring;
use tbd_mud::floor_render::MASK_TO_AUTHORING_INDEX;

fn idx(w: usize, x: usize, y: usize) -> usize {
    (y * w + x) * 4
}

fn px(data: &[u8], w: usize, x: usize, y: usize) -> [u8; 4] {
    let i = idx(w, x, y);
    [data[i], data[i + 1], data[i + 2], data[i + 3]]
}

fn set_px(data: &mut [u8], w: usize, x: usize, y: usize, rgba: [u8; 4]) {
    let i = idx(w, x, y);
    data[i..i + 4].copy_from_slice(&rgba);
}

const I_TL: [u8; 4] = [11, 0, 0, 255];
const I_TR: [u8; 4] = [0, 22, 0, 255];
const I_BL: [u8; 4] = [0, 0, 33, 255];
const I_BR: [u8; 4] = [44, 44, 0, 255];
const SCRAP: [u8; 4] = [99, 99, 99, 255];

/// An 8×8 atlas of one variant block (tile size 2): the solid interior tile
/// with four distinct quadrant colours, and the mask-8 edge tile with a stray
/// scrap in a quadrant its mask leaves unset.
fn build_atlas() -> (Vec<u8>, u32, u32, u32) {
    let t = 2usize;
    let w = 8usize;
    let h = 8usize;
    let mut data = vec![0u8; w * h * 4];

    let ix = (MASK_TO_AUTHORING_INDEX[0xF] % 4) * t;
    let iy = (MASK_TO_AUTHORING_INDEX[0xF] / 4) * t;
    set_px(&mut data, w, ix, iy, I_TL);
    set_px(&mut data, w, ix + 1, iy, I_TR);
    set_px(&mut data, w, ix, iy + 1, I_BL);
    set_px(&mut data, w, ix + 1, iy + 1, I_BR);

    let ex = (MASK_TO_AUTHORING_INDEX[8] % 4) * t;
    let ey = (MASK_TO_AUTHORING_INDEX[8] / 4) * t;
    set_px(&mut data, w, ex, ey, SCRAP);

    (data, w as u32, h as u32, t as u32)
}

#[test]
fn flooring_fills_set_quadrant_from_opposite_interior_and_clears_unset() {
    let (data, w, h, t) = build_atlas();
    let out = apply_flooring(&data, w, h, t);
    let wi = w as usize;
    assert_eq!(px(&out, wi, 1, 4), I_BL, "set quadrant ← opposite interior");
    assert_eq!(px(&out, wi, 0, 4), [0, 0, 0, 0], "scrap cut from unset TL");
    assert_eq!(px(&out, wi, 0, 5), [0, 0, 0, 0], "unset BL stays clear");
    assert_eq!(px(&out, wi, 1, 5), [0, 0, 0, 0], "unset BR stays clear");
}

#[test]
fn flooring_point_reflects_solid_interior_tile() {
    let (data, w, h, t) = build_atlas();
    let out = apply_flooring(&data, w, h, t);
    let wi = w as usize;
    let ix = (MASK_TO_AUTHORING_INDEX[0xF] % 4) * 2;
    let iy = (MASK_TO_AUTHORING_INDEX[0xF] / 4) * 2;
    assert_eq!(px(&out, wi, ix, iy), I_BR, "TL ← opposite BR");
    assert_eq!(px(&out, wi, ix + 1, iy), I_BL, "TR ← opposite BL");
    assert_eq!(px(&out, wi, ix, iy + 1), I_TR, "BL ← opposite TR");
    assert_eq!(px(&out, wi, ix + 1, iy + 1), I_TL, "BR ← opposite TL");
}

#[test]
fn flooring_solid_tile_is_fully_opaque() {
    let (data, w, h, t) = build_atlas();
    let out = apply_flooring(&data, w, h, t);
    let wi = w as usize;
    let ix = (MASK_TO_AUTHORING_INDEX[0xF] % 4) * 2;
    let iy = (MASK_TO_AUTHORING_INDEX[0xF] / 4) * 2;
    for dy in 0..2 {
        for dx in 0..2 {
            assert_ne!(px(&out, wi, ix + dx, iy + dy)[3], 0, "no transparent gap");
        }
    }
}

#[test]
fn flooring_leaves_block_with_empty_interior_untouched() {
    let t = 2usize;
    let w = 8usize;
    let h = 8usize;
    let mut data = vec![0u8; w * h * 4];
    set_px(&mut data, w, 0, 0, SCRAP);
    let out = apply_flooring(&data, w as u32, h as u32, t as u32);
    assert_eq!(out, data, "empty-interior block preserved verbatim");
}

#[test]
fn flooring_is_identity_on_unexpected_layout() {
    let data = vec![7u8; 3 * 4 * 4 * 4];
    let out = apply_flooring(&data, 3 * 4, 4 * 4, 4);
    assert_eq!(out, data);
}

#[test]
fn flooring_preserves_buffer_length() {
    let (data, w, h, t) = build_atlas();
    let out = apply_flooring(&data, w, h, t);
    assert_eq!(out.len(), data.len());
}

#[test]
fn flooring_handles_two_variant_blocks_independently() {
    // Two stacked blocks: the first has an interior, the second none, so
    // only the first block is rewritten.
    let t = 2usize;
    let w = 8usize;
    let h = 16usize;
    let mut data = vec![0u8; w * h * 4];
    set_px(&mut data, w, 4, 2, I_TL);
    set_px(&mut data, w, 0, 8, SCRAP);
    let out = apply_flooring(&data, w as u32, h as u32, t as u32);
    assert_eq!(px(&out, w, 4, 2), [0, 0, 0, 0], "interior TL quadrant refilled from empty BR");
    assert_eq!(px(&out, w, 5, 3), I_TL, "interior BR ← opposite TL");
    assert_eq!(px(&out, w, 0, 8), SCRAP, "second block copied verbatim");
}

#[test]
fn flooring_copies_bytes_past_the_image() {
    let (mut data, w, h, t) = build_atlas();
    data.extend_from_slice(&[5, 6, 7, 8]);
    let out = apply_flooring(&data, w, h, t);
    assert_eq!(out.len(), data.len());
    assert_eq!(&out[out.len() - 4..], &[5, 6, 7, 8]);
    let wi = w as usize;
    assert_eq!(px(&out, wi, 1, 4), I_BL);
}
