//! The Qwen VL family.
use sglang_mm_core::binary32::Binary32;
use sglang_mm_core::common::grid::{normalize_lut, patchify};
use sglang_mm_core::common::resize::{Filter, Resample};
use sglang_mm_core::common::token_layout::apply_layout;
use sglang_mm_core::pipeline::{
    DecodedMedia, Geometry, Output, OutputItem, PositionOutput, Segment, TensorData, TokenPattern,
};
use sglang_mm_core::qwen_vl::{
    mrope_image_only, pack_output, smart_resize, MropeItem, QwenVlProcessor, QwenVlSpec,
    Resampler, ResizeError,
};

fn number(v: f32) -> Binary32 {
    Binary32 { bits: v.to_bits() }
}

fn value(v: Binary32) -> f32 {
    f32::from_bits(v.bits)
}

fn spec() -> QwenVlSpec {
    QwenVlSpec {
        image_token_id: 1,
        patch_size: 2,
        merge_size: 2,
        temporal_patch_size: 2,
        min_pixels: 4,
        max_pixels: 1 << 30,
        image_mean: [number(0.0); 3],
        image_std: [number(1.0); 3],
        resample: Resampler::default(),
    }
}

fn no_resize(_: &[u8], _: usize, _: usize, _: usize, _: usize, _: Resample) -> Vec<u8> {
    panic!("nothing to resize")
}

/// With mean = std = 0.5 the two ways to normalize differ on 128 of the 256 bytes.
#[test]
fn normalize_lut_differs_per_resampler() {
    let pil = normalize_lut(Resampler::Pil, number(0.5), number(0.5)).map(value);
    let aten = normalize_lut(Resampler::AtenU8, number(0.5), number(0.5)).map(value);
    assert_eq!(pil.iter().zip(aten).filter(|(p, a)| *p != a).count(), 128);
    for lut in [pil, aten] {
        assert_eq!(lut[0], -1.0);
        assert_eq!(lut[255], 1.0);
    }
}

#[test]
fn smart_resize_matches_python_reference() {
    assert_eq!(
        smart_resize(1365, 2048, 28, 3136, 12845056).unwrap(),
        (1372, 2044)
    );
    assert_eq!(
        smart_resize(100, 100, 28, 3136, 12845056).unwrap(),
        (112, 112)
    );
    // Too large: rounded down.
    assert_eq!(
        smart_resize(3000, 4000, 28, 3136, 1003520).unwrap(),
        (840, 1148)
    );
    // Too small: rounded up.
    assert_eq!(smart_resize(20, 20, 28, 3136, 12845056).unwrap(), (56, 56));
    assert_eq!(
        smart_resize(1365, 2048, 32, 65536, 16777216).unwrap(),
        (1376, 2048)
    );
    // A tie: 48/32 = 1.5 rounds to 2, the even one.
    assert_eq!(smart_resize(4000, 48, 32, 4, 1 << 30).unwrap(), (4000, 64));
    // Extreme aspect ratio.
    assert!(smart_resize(10000, 10, 28, 3136, 12845056).is_err());
}

#[test]
fn degenerate_target_is_rejected_not_panicked() {
    // An aspect ratio of 200 passes; 10 / beta then rounds down to 0.
    assert!(smart_resize(10, 2000, 28, 3136, 3136).is_err());

    let mut spec = spec();
    spec.patch_size = 14;
    spec.min_pixels = 3136;
    spec.max_pixels = 3136;
    let proc = QwenVlProcessor::new(spec).ok().unwrap();
    let err = proc
        .process_item(
            &DecodedMedia::Image {
                rgb: vec![0u8; 10 * 2000 * 3],
                height: 10,
                width: 2000,
            },
            no_resize,
        )
        .err()
        .expect("degenerate geometry must be an Err, never a panic")
        .message("");
    assert!(err.contains("smart_resize"), "unexpected error: {err}");
}

#[test]
fn qwen_declares_images_only() {
    let caps = QwenVlProcessor::new(spec()).ok().unwrap().capabilities();
    assert!(!caps.video && !caps.audio);
}

#[test]
fn patchify_layout_matches_hf_order() {
    // 4x8 image, ps=2, m=2, tps=2: gh=2, gw=4, dim=3*2*2*2=24.
    // Pixel values encode (y, x): v = y*16 + x*2.
    let (h, w) = (4usize, 8usize);
    let mut rgb = vec![0u8; h * w * 3];
    for y in 0..h {
        for x in 0..w {
            for c in 0..3 {
                rgb[(y * w + x) * 3 + c] = (y * 16 + x * 2 + c) as u8;
            }
        }
    }
    let proc = QwenVlProcessor::new(spec()).ok().unwrap();
    let pv: Vec<f32> = proc.patchify(&rgb, h, w).into_iter().map(value).collect();
    let dim = 24; // 3 * tps * ps * ps
    assert_eq!(pv.len(), 2 * 4 * dim);

    let lut = |y: usize, x: usize, c: usize| ((y * 16 + x * 2 + c) as f32) / 255.0;
    // patch 1, channel 0, t=0, (py=0, px=0): pixel (0, 2).
    assert_eq!(pv[dim], lut(0, 2, 0));
    // patch 2, channel 0, t=0, (0,0): pixel (2, 0).
    assert_eq!(pv[2 * dim], lut(2, 0, 0));
    // patch 4, channel 0: pixel (0, 4).
    assert_eq!(pv[4 * dim], lut(0, 4, 0));
    // The second temporal copy equals the first.
    let ps2 = 4; // ps*ps
    assert_eq!(pv[dim + ps2], pv[dim]);
    // Channel 1 of patch 0: the same pixel, c=1.
    assert_eq!(pv[2 * ps2], lut(0, 0, 1)); // c stride = tps*ps*ps = 8
}

#[test]
fn mrope_image_only_matches_reference() {
    // 3 text tokens, image of grid [1, 4, 6] (m=2: 2x3 = 6 tokens), 2 text.
    let items = [MropeItem {
        start: 3,
        end: 8,
        grid: [1, 4, 6],
    }];
    let (pos, delta) = mrope_image_only(11, &items, 2).unwrap();
    let len = 11;
    // Text prefix 0..3: all rows 0,1,2.
    for k in 0..3 {
        assert_eq!(
            (pos[k], pos[len + k], pos[2 * len + k]),
            (k as i64, k as i64, k as i64)
        );
    }
    // Image tokens: t=0, h in 0..2, w in 0..3, +3 offset.
    assert_eq!((pos[3], pos[len + 3], pos[2 * len + 3]), (3, 3, 3));
    assert_eq!((pos[4], pos[len + 4], pos[2 * len + 4]), (3, 3, 4));
    assert_eq!((pos[6], pos[len + 6], pos[2 * len + 6]), (3, 4, 3));
    // Text tail resumes at 3 + max(1,2,3) = 6.
    assert_eq!((pos[9], pos[len + 9], pos[2 * len + 9]), (6, 6, 6));
    assert_eq!((pos[10], pos[len + 10], pos[2 * len + 10]), (7, 7, 7));
    // delta = max + 1 - len = 7 + 1 - 11.
    assert_eq!(delta, -3);
}

#[test]
fn zero_sizes_are_refused() {
    for field in 0..3 {
        let mut s = spec();
        match field {
            0 => s.patch_size = 0,
            1 => s.merge_size = 0,
            _ => s.temporal_patch_size = 0,
        }
        assert_eq!(
            QwenVlProcessor::new(s).err().as_deref(),
            Some("qwen_vl spec: sizes must be positive")
        );
    }
}

#[test]
fn resize_errors_have_messages() {
    assert_eq!(
        smart_resize(0, 5, 28, 1, 100).unwrap_err(),
        ResizeError::EmptyImage
    );
    assert_eq!(ResizeError::EmptyImage.message(""), "empty image");
    let wide = smart_resize(10, 10000, 28, 3136, 12845056).unwrap_err();
    assert_eq!(
        wide.message("1000"),
        "absolute aspect ratio must be smaller than 200, got 1000"
    );
    let thin = smart_resize(10, 2000, 28, 3136, 3136).unwrap_err();
    assert_eq!(
        thin.message(""),
        "smart_resize: 10x2000 degenerates to 0x784 at max_pixels=3136; \
         image is too thin for this pixel budget"
    );
    // Without a factor or a budget nothing is left.
    assert!(matches!(
        smart_resize(10, 10, 0, 1, 100).unwrap_err(),
        ResizeError::Degenerate { h_bar: 0, w_bar: 0, .. }
    ));
    assert!(matches!(
        smart_resize(10, 10, 4, 1, 0).unwrap_err(),
        ResizeError::Degenerate { h_bar: 0, w_bar: 0, .. }
    ));
}

fn round_half_even(x: f64) -> f64 {
    if (x - x.trunc()).abs() == 0.5 {
        (x / 2.0).round() * 2.0
    } else {
        x.round()
    }
}

/// The sides in double precision.
fn native_sides(
    height: usize,
    width: usize,
    factor: usize,
    min_pixels: usize,
    max_pixels: usize,
) -> Option<(usize, usize)> {
    let (h, w) = (height as f64, width as f64);
    if h.max(w) / h.min(w) > 200.0 {
        return None;
    }
    let f = factor as f64;
    let mut h_bar = ((round_half_even(h / f) * f) as usize).max(factor);
    let mut w_bar = ((round_half_even(w / f) * f) as usize).max(factor);
    if h_bar * w_bar > max_pixels {
        let beta = (h * w / max_pixels as f64).sqrt();
        h_bar = ((h / beta / f).floor() * f) as usize;
        w_bar = ((w / beta / f).floor() * f) as usize;
    } else if h_bar * w_bar < min_pixels {
        let beta = (min_pixels as f64 / (h * w)).sqrt();
        h_bar = ((h * beta / f).ceil() * f) as usize;
        w_bar = ((w * beta / f).ceil() * f) as usize;
    }
    if h_bar == 0 || w_bar == 0 {
        None
    } else {
        Some((h_bar, w_bar))
    }
}

struct Numbers(u64);

impl Numbers {
    fn next(&mut self) -> u64 {
        self.0 ^= self.0 << 13;
        self.0 ^= self.0 >> 7;
        self.0 ^= self.0 << 17;
        self.0
    }

    fn below(&mut self, n: u64) -> usize {
        (self.next() % n) as usize
    }
}

#[test]
fn smart_resize_agrees_with_double_precision() {
    let mut numbers = Numbers(0x9e37_79b9_7f4a_7c15);
    for round in 0..60_000 {
        let scale = [100, 3000, 70_000, 3_000_000][round % 4];
        let height = 1 + numbers.below(scale);
        let width = 1 + numbers.below(scale);
        let factor = 1 + numbers.below(64);
        let max_pixels = 1 + numbers.below([2000, 1 << 22, 1 << 34][round % 3]);
        let min_pixels = 1 + numbers.below(max_pixels as u64);
        assert_eq!(
            smart_resize(height, width, factor, min_pixels, max_pixels).ok(),
            native_sides(height, width, factor, min_pixels, max_pixels),
            "{height}x{width} by {factor} in {min_pixels}..{max_pixels}"
        );
    }
}

#[test]
fn targets_keep_factor_and_budget() {
    let mut numbers = Numbers(77);
    for _ in 0..20_000 {
        let height = 1 + numbers.below(5000);
        let width = 1 + numbers.below(5000);
        let factor = 1 + numbers.below(56);
        let max_pixels = 10_000 + numbers.below(20_000_000);
        if let Ok((h, w)) = smart_resize(height, width, factor, 3136, max_pixels) {
            assert!(h > 0 && w > 0 && h % factor == 0 && w % factor == 0);
            let f = factor as f64;
            let rounded = |n: usize| ((round_half_even(n as f64 / f) * f) as usize).max(factor);
            let pixels = rounded(height) * rounded(width);
            if 16 * 3136 <= max_pixels {
                assert!(3136 <= h * w && h * w <= max_pixels);
            }
            if pixels > max_pixels {
                assert!(h * w <= max_pixels);
            } else if pixels < 3136 {
                assert!(h * w >= 3136);
            } else {
                assert_eq!(h * w, pixels);
            }
        }
    }
}

#[test]
fn process_item_resizes_to_the_target() {
    let proc = QwenVlProcessor::new(spec()).ok().unwrap();
    // 5 rounds to 4 and 6 to 8: half even of 1.25 and 1.5 blocks.
    let media = DecodedMedia::Image {
        rgb: vec![7; 5 * 6 * 3],
        height: 5,
        width: 6,
    };
    let item = proc
        .process_item(&media, |rgb: &[u8], h, w, th, tw, resample| {
            assert_eq!(rgb, vec![7; 5 * 6 * 3].as_slice());
            assert_eq!((h, w, th, tw), (5, 6, 4, 8));
            assert_eq!(resample, Resample::AtenU8);
            vec![51; th * tw * 3]
        })
        .ok()
        .unwrap();
    assert_eq!(item.geometry, Geometry::Grid([1, 2, 4]));
    assert_eq!(item.feature.shape, vec![8, 24]);
    assert_eq!(item.aux[0].0, "image_grid_thw");
    assert_eq!(item.aux[0].1.data, TensorData::I64(vec![1, 2, 4]));
    let TensorData::F32(values) = item.feature.data else {
        panic!("expected numbers")
    };
    assert_eq!(values, vec![number(51.0 / 255.0); 8 * 24]);
}

#[test]
fn an_image_of_target_size_is_not_resized() {
    let mut s = spec();
    s.resample = Resampler::Pil;
    let proc = QwenVlProcessor::new(s).ok().unwrap();
    let media = DecodedMedia::Image {
        rgb: (0..4 * 4 * 3).collect(),
        height: 4,
        width: 4,
    };
    let item = proc.process_item(&media, no_resize).ok().unwrap();
    let TensorData::F32(values) = item.feature.data else {
        panic!("expected numbers")
    };
    assert_eq!(values.len(), 4 * 24);
    assert_eq!(value(values[0]), 0.0);
    assert_eq!(value(values[1]), 3.0 / 255.0);
    assert_eq!(value(values[2]), 12.0 / 255.0);
    assert_eq!(Resample::from(Resampler::Pil), Resample::Pil(Filter::Bicubic));
    assert_eq!(Resample::from(Resampler::AtenU8), Resample::AtenU8);
}

/// An image goes through preprocessing, layout, positions and packing.
#[test]
fn images_go_all_the_way() {
    let proc = QwenVlProcessor::new(spec()).ok().unwrap();
    let media = DecodedMedia::Image {
        rgb: vec![0; 8 * 4 * 3],
        height: 8,
        width: 4,
    };
    let item = proc.process_item(&media, no_resize).ok().unwrap();
    assert_eq!(item.geometry, Geometry::Grid([1, 4, 2]));
    assert_eq!(proc.tokens_per_image(&[1, 4, 2]), 2);
    let ids = [5, 1, 6];
    let layout = proc.layout(&ids, &[item.geometry]).unwrap();
    assert_eq!(
        layout.segments,
        vec![
            Segment::Text { start: 0, end: 1 },
            Segment::Media {
                item: 0,
                pattern: TokenPattern::Repeat { id: 1, n: 2 }
            },
            Segment::Text { start: 2, end: 3 },
        ]
    );
    let expanded = apply_layout(&ids, &layout, 1).unwrap();
    assert_eq!(expanded.input_ids, vec![5, 1, 1, 6]);
    assert_eq!(expanded.offsets, vec![(1, 2)]);
    let positions = proc
        .positions(4, &expanded.offsets, &[item.geometry])
        .unwrap();
    assert_eq!(
        positions,
        PositionOutput::MRope {
            positions: vec![0, 1, 1, 3, 0, 1, 2, 3, 0, 1, 1, 3],
            delta: 0
        }
    );
    let packed = pack_output(Output {
        input_ids: expanded.input_ids,
        items: vec![OutputItem {
            feature: item.feature,
            aux: item.aux,
            hash: 3,
        }],
        offsets: expanded.offsets,
        positions,
    })
    .unwrap();
    assert_eq!(packed.grids, vec![[1, 4, 2]]);
    assert_eq!(packed.features.len(), 8 * 24);
}

#[test]
fn positions_follow_the_shorter_of_ranges_and_grids() {
    let proc = QwenVlProcessor::new(spec()).ok().unwrap();
    let grid = Geometry::Grid([1, 2, 2]);
    let one = proc.positions(3, &[(0, 0)], &[grid, grid]).unwrap();
    let two = proc.positions(3, &[(0, 0), (1, 1)], &[grid]).unwrap();
    assert_eq!(one, two);
    assert_eq!(
        proc.positions(3, &[(2, 1)], &[grid]).unwrap_err(),
        "mrope: token span does not match grid"
    );
    assert_eq!(
        proc.layout(&[1, 1], &[grid]).unwrap_err(),
        "token layout: 2 placeholder tokens for 1 media items"
    );
}

/// Budgets above 2^50 pixels can be missed by a rounding.
#[test]
fn huge_budgets_can_be_missed_by_one_pixel() {
    let max_pixels = 3_684_333_152_869_263;
    let (h, w) = smart_resize(68_386_033, 68_386_033, 1, 1, max_pixels).unwrap();
    assert_eq!((h, w), (60_698_708, 60_698_708));
    assert_eq!(h * w, max_pixels + 1);
}

/// With and without blocks the patches are the same, in another order; without blocks
/// they come row by row of the grid.
#[test]
fn blocks_only_reorder_patches() {
    let (h, w, ps, m, tps) = (12usize, 18usize, 2usize, 3usize, 2usize);
    let (gh, gw, dim) = (h / ps, w / ps, 3 * tps * ps * ps);
    let rgb: Vec<u8> = (0..h * w * 3).map(|i| (i * 37 % 251) as u8).collect();
    let lut = [normalize_lut(Resampler::AtenU8, number(0.25), number(0.5)); 3];
    let rows = |m: usize| -> Vec<Vec<u32>> {
        let values = patchify(&rgb, h, w, ps, m, tps, &lut);
        assert_eq!(values.len(), gh * gw * dim);
        values
            .chunks(dim)
            .map(|row| row.iter().map(|v| v.bits).collect())
            .collect()
    };
    let blocks = rows(m);
    let plain = rows(1);
    assert_ne!(blocks, plain);
    for (k, row) in plain.iter().enumerate() {
        let (y0, x0) = (k / gw * ps, k % gw * ps);
        for (off, v) in row.iter().enumerate() {
            let c = off / (tps * ps * ps);
            let (py, px) = (off / ps % ps, off % ps);
            let byte = rgb[((y0 + py) * w + x0 + px) * 3 + c];
            assert_eq!(*v, lut[c][byte as usize].bits);
        }
    }
    // Block by block, from left to right, and row by row in a block.
    for (r, row) in blocks.iter().enumerate() {
        let p = r % (gw * m);
        let y = r / (gw * m) * m + p / m % m;
        let x = p / (m * m) * m + p % m;
        assert_eq!(*row, plain[y * gw + x]);
    }
    let (mut a, mut b) = (blocks, plain);
    a.sort();
    b.sort();
    assert_eq!(a, b);
}

/// Where the bounds are close, one scaling cannot keep both.
#[test]
fn close_bounds_can_be_crossed() {
    assert_eq!(smart_resize(100, 50, 28, 3136, 3136).unwrap(), (56, 28));
    // A long image that is one block wide after stretching: 13 times as large.
    let (h, w) = smart_resize(149, 1, 100, 10_001, 1 << 30).unwrap();
    assert_eq!((h, w), (1300, 100));
    assert!(10_001 <= h * w && h * w < 16 * 10_001);
}
