//! The GLM VL family.
use image::metadata::Orientation;
use sglang_mm_core::binary32::Binary32;
use sglang_mm_core::common::resize::Resample;
use sglang_mm_core::common::token_layout;
use sglang_mm_core::glm_vl::decode::{finish_decoding, to_media};
use sglang_mm_core::glm_vl::padding::pad;
use sglang_mm_core::glm_vl::{
    composite_alpha, CanvasRules, DecodeError, GlmResize, GlmVlProcessor, GlmVlSpec, StoredImage,
};
use sglang_mm_core::pipeline::{
    DecodedMedia, Geometry, Output, OutputItem, PositionOutput, Segment, TensorData, TokenPattern,
};
use sglang_mm_core::qwen_vl::Resampler;
use std::io::Cursor;

fn number(v: f32) -> Binary32 {
    Binary32 { bits: v.to_bits() }
}

fn spec() -> GlmVlSpec {
    GlmVlSpec {
        image_token_id: 10,
        image_start_token_id: 11,
        image_end_token_id: 12,
        video_start_token_id: 13,
        video_end_token_id: 14,
        patch_size: 14,
        merge_size: 2,
        temporal_patch_size: 2,
        patch_expand_factor: 1,
        min_image_tokens: 16,
        max_image_tokens: 8000,
        image_mean: [number(0.5); 3],
        image_std: [number(0.5); 3],
        resample: Resampler::AtenU8,
    }
}

fn no_resize(_: &[u8], _: usize, _: usize, _: usize, _: usize, _: Resample) -> Vec<u8> {
    panic!("nothing to resize")
}

#[test]
fn geometry_matches_reference_examples() {
    let proc = GlmVlProcessor::new(spec()).ok().unwrap();
    for (h, w, ch, cw, rh, rw, tokens) in [
        (1365, 2048, 1372, 2072, 1365, 2048, 3626),
        (100, 100, 112, 112, 112, 112, 16),
        (20, 20, 112, 112, 112, 112, 16),
        (4000, 3000, 2884, 2156, 2874, 2156, 7931),
        (3000, 4000, 2156, 2884, 2156, 2874, 7931),
        (4096, 4096, 2492, 2492, 2492, 2492, 7921),
        (10, 2000, 28, 2016, 10, 2000, 72),
    ] {
        let got = proc.resize_geometry(h, w).unwrap();
        assert_eq!(
            got,
            GlmResize {
                canvas_h: ch,
                canvas_w: cw,
                content_h: rh,
                content_w: rw
            },
            "{h}x{w}"
        );
        assert_eq!((ch / 14) * (cw / 14) / 4, tokens);
    }
}

#[test]
fn process_layout_positions_and_padding() {
    let proc = GlmVlProcessor::new(spec()).ok().unwrap();
    let img = image::RgbImage::from_pixel(2000, 10, image::Rgb([255, 0, 0]));
    let mut buffer = Cursor::new(Vec::new());
    img.write_to(&mut buffer, image::ImageFormat::Png).unwrap();
    let media = proc.decode_image(&buffer.into_inner()).unwrap();
    let item = proc.process_item(&media, no_resize).unwrap();
    let ids = [11, 10, 12];
    let layout = proc.layout(&ids, &[item.geometry]).unwrap();
    let expanded = token_layout::apply_layout(&ids, &layout, 1).unwrap();
    let positions = proc
        .positions(
            expanded.input_ids.len(),
            &expanded.offsets,
            &[item.geometry],
        )
        .unwrap();
    let result = Output {
        input_ids: expanded.input_ids,
        items: vec![OutputItem {
            feature: item.feature,
            aux: item.aux,
            hash: 1,
        }],
        offsets: expanded.offsets,
        positions,
    };
    assert_eq!(result.input_ids.len(), 74);
    assert_eq!(result.offsets, vec![(1, 72)]);
    assert_eq!(result.items[0].feature.shape, [288, 1176]);
    let TensorData::I64(grid) = &result.items[0].aux[0].1.data else {
        panic!("expected grid")
    };
    assert_eq!(grid, &[1, 2, 144]);
    let TensorData::F32(values) = &result.items[0].feature.data else {
        panic!("expected f32")
    };
    assert!(values.iter().any(|&v| v == number(-1.0))); // zero padding normalizes to -1
    let PositionOutput::MRope { ref positions, .. } = result.positions else {
        panic!("expected mrope")
    };
    assert_eq!(positions.len(), 3 * result.input_ids.len());
    let packed = sglang_mm_core::grid_packing::pack_grid_output(result, "glm_vl").unwrap();
    assert_eq!(packed.grids, [[1, 2, 144]]);
    assert_eq!(packed.features.len(), 288 * 1176);
    assert_eq!(packed.offsets, [(1, 72)]);
    assert!(proc
        .layout(&[11, 13, 10, 12], &[Geometry::Grid([1, 2, 144])])
        .is_err());
}

#[test]
fn layout_repeats_each_image_in_prompt_order() {
    let proc = GlmVlProcessor::new(spec()).ok().unwrap();
    let ids = [7, 11, 10, 12, 8, 11, 10, 12, 9];
    let grids = [Geometry::Grid([1, 4, 4]), Geometry::Grid([1, 2, 4])];
    let layout = proc.layout(&ids, &grids).unwrap();
    let patterns = layout
        .segments
        .iter()
        .filter_map(|segment| match segment {
            Segment::Media {
                item,
                pattern: TokenPattern::Repeat { id, n },
            } => Some((*item, *id, *n)),
            _ => None,
        })
        .collect::<Vec<_>>();
    assert_eq!(patterns, [(0, 10, 4), (1, 10, 2)]);

    let expanded = token_layout::apply_layout(&ids, &layout, grids.len()).unwrap();
    assert_eq!(
        expanded.input_ids,
        [7, 11, 10, 10, 10, 10, 12, 8, 11, 10, 10, 12, 9]
    );
    assert_eq!(expanded.offsets, [(2, 5), (9, 10)]);
    assert!(proc.layout(&ids, &grids[..1]).is_err());
    for wrapper in [spec().video_start_token_id, spec().video_end_token_id] {
        let mut video_ids = ids;
        video_ids[0] = wrapper;
        assert!(proc.layout(&video_ids, &grids).is_err());
    }
}

#[test]
fn transparent_edges_choose_background() {
    let rgba = [255, 0, 0, 0, 0, 0, 0, 255];
    assert_eq!(composite_alpha(&rgba, 2, 1), [240, 240, 240, 0, 0, 0]);
    let rgba = [240, 240, 240, 255, 255, 0, 0, 0];
    assert_eq!(composite_alpha(&rgba, 2, 1)[3..], [32, 32, 32]);
    assert_eq!(composite_alpha(&[0, 0, 0, 0], 1, 1), [255, 255, 255]);
}

#[test]
fn jpeg_exif_orientation_is_applied_before_rgb() {
    let img = image::RgbImage::from_fn(3, 2, |x, y| image::Rgb([x as u8, y as u8, 0]));
    let mut jpeg = Cursor::new(Vec::new());
    img.write_to(&mut jpeg, image::ImageFormat::Jpeg).unwrap();
    let jpeg = jpeg.into_inner();
    let exif: [u8; 32] = [
        b'E', b'x', b'i', b'f', 0, 0, // Exif identifier
        b'I', b'I', 42, 0, 8, 0, 0, 0, // little-endian TIFF
        1, 0, // one IFD entry
        0x12, 0x01, 3, 0, 1, 0, 0, 0, 6, 0, 0, 0, // orientation=6
        0, 0, 0, 0, // no next IFD
    ];
    let len = (exif.len() + 2) as u16;
    let mut oriented = vec![0xff, 0xd8, 0xff, 0xe1];
    oriented.extend_from_slice(&len.to_be_bytes());
    oriented.extend_from_slice(&exif);
    oriented.extend_from_slice(&jpeg[2..]);
    let proc = GlmVlProcessor::new(spec()).ok().unwrap();
    let DecodedMedia::Image { height, width, .. } = proc.decode_image(&oriented).unwrap();
    assert_eq!((height, width), (3, 2));
}

#[test]
fn rgba_png_decode_composites_alpha() {
    let image = image::RgbaImage::from_raw(2, 1, vec![0, 0, 0, 0, 240, 240, 240, 255]).unwrap();
    let mut png = Cursor::new(Vec::new());
    image.write_to(&mut png, image::ImageFormat::Png).unwrap();
    let proc = GlmVlProcessor::new(spec()).ok().unwrap();
    let DecodedMedia::Image { rgb, height, width } = proc.decode_image(&png.into_inner()).unwrap();
    assert_eq!((height, width), (1, 2));
    assert_eq!(rgb, [32, 32, 32, 240, 240, 240]);
}

#[test]
fn invalid_budget_rejected() {
    let mut s = spec();
    s.patch_expand_factor = 4;
    s.max_image_tokens = 1;
    assert!(GlmVlProcessor::new(s).is_err());
}

fn refusal(s: GlmVlSpec) -> String {
    match GlmVlProcessor::new(s) {
        Ok(_) => panic!("expected a refusal"),
        Err(e) => e,
    }
}

#[test]
fn parameters_are_checked_in_order() {
    let sizes = "glm_vl spec: sizes and token budgets must be positive and ordered";
    for field in 0..7 {
        let mut s = spec();
        match field {
            0 => s.patch_size = 0,
            1 => s.merge_size = 0,
            2 => s.temporal_patch_size = 0,
            3 => s.patch_expand_factor = 0,
            4 => s.min_image_tokens = 0,
            5 => s.max_image_tokens = 0,
            _ => s.min_image_tokens = 8001,
        }
        assert_eq!(refusal(s), sizes);
    }
    for bad in [f32::NAN, f32::INFINITY, f32::NEG_INFINITY, 0.0, -0.0] {
        for channel in 0..3 {
            let mut s = spec();
            s.image_std[channel] = number(bad);
            assert_eq!(
                refusal(s),
                "glm_vl spec: mean/std must be finite and std nonzero"
            );
            let mut s = spec();
            s.image_mean[channel] = number(bad);
            assert_eq!(GlmVlProcessor::new(s).is_err(), bad != 0.0);
        }
    }
    let mut s = spec();
    s.resample = Resampler::Pil;
    assert!(GlmVlProcessor::new(s).is_ok());
    s.patch_expand_factor = 2;
    assert_eq!(
        refusal(s),
        "glm_vl spec: PIL backend requires patch_expand_factor=1"
    );
    let mut s = spec();
    s.patch_size = usize::MAX;
    assert_eq!(refusal(s), "glm_vl spec: factor overflow");
    let mut s = spec();
    s.patch_size = 1 << 62;
    assert_eq!(refusal(s), "glm_vl spec: minimum pixel budget overflow");
    s.temporal_patch_size = 4;
    assert_eq!(refusal(s), "glm_vl spec: pixel budget overflow");
    let mut s = spec();
    s.patch_size = 1 << 60;
    assert_eq!(refusal(s), "glm_vl spec: maximum pixel budget overflow");
    let mut s = spec();
    s.patch_expand_factor = 1 << 59;
    assert_eq!(refusal(s), "glm_vl spec: minimum canvas overflow");
    let mut s = spec();
    s.patch_expand_factor = 90;
    assert_eq!(
        refusal(s),
        "glm_vl spec: max_image_tokens cannot fit the minimum canvas"
    );
}

struct Numbers(u64);

impl Numbers {
    fn next(&mut self) -> u64 {
        self.0 ^= self.0 << 13;
        self.0 ^= self.0 >> 7;
        self.0 ^= self.0 << 17;
        self.0
    }

    fn below(&mut self, n: u64) -> usize {
        (self.next() % n) as usize
    }
}

/// The sizes in double precision, for sides that do not overflow.
fn native_sizes(rules: &CanvasRules, height: usize, width: usize) -> GlmResize {
    let frames = rules.frames as u128;
    let align = |n: usize| n.div_ceil(rules.factor) * rules.factor;
    let budget = |h: usize, w: usize| frames.saturating_mul(h as u128).saturating_mul(w as u128);
    let (mut ch, mut cw) = (align(height), align(width));
    if budget(ch, cw) < rules.min_pixels {
        let scale =
            (rules.min_pixels as f64 / (frames as f64 * height as f64 * width as f64)).sqrt();
        ch = align(((height as f64 * scale).ceil() as usize).max(1));
        cw = align(((width as f64 * scale).ceil() as usize).max(1));
    }
    if budget(ch, cw) > rules.max_pixels {
        (ch, cw) = (rules.factor, rules.factor);
        for mid in (1..=height).rev() {
            let content_w = ((width as u128 * mid as u128) / height as u128).max(1) as usize;
            if budget(align(mid), align(content_w)) <= rules.max_pixels {
                (ch, cw) = (align(mid), align(content_w));
                break;
            }
        }
    }
    let mut scale = (ch as f64 / height as f64).min(cw as f64 / width as f64);
    if budget(height, width) >= rules.min_pixels {
        scale = scale.min(1.0);
    }
    GlmResize {
        canvas_h: ch,
        canvas_w: cw,
        content_h: ((height as f64 * scale).floor() as usize).clamp(1, ch),
        content_w: ((width as f64 * scale).floor() as usize).clamp(1, cw),
    }
}

#[test]
fn geometry_agrees_with_double_precision() {
    let mut numbers = Numbers(0x1234_5678_9abc_def1);
    for round in 0..2_000 {
        let scale = [60, 700, 5000][round % 3];
        let height = 1 + numbers.below(scale);
        let width = 1 + numbers.below(scale);
        let factor = 1 + numbers.below(56);
        let frames = 1 + numbers.below(4);
        let smallest = (frames * factor * factor) as u128;
        let max_pixels = smallest + numbers.below([5000, 1 << 18, 1 << 27][round % 3]) as u128;
        let min_pixels = 1 + numbers.below(max_pixels as u64) as u128;
        let rules = CanvasRules {
            factor,
            frames,
            min_pixels,
            max_pixels,
        };
        let got = rules.resize_geometry(height, width).unwrap();
        assert_eq!(
            got,
            native_sizes(&rules, height, width),
            "{height}x{width} {rules:?}"
        );
        assert_eq!(got.canvas_h % factor, 0);
        assert_eq!(got.canvas_w % factor, 0);
        assert!((frames * got.canvas_h * got.canvas_w) as u128 <= max_pixels);
        assert!(1 <= got.content_h && got.content_h <= got.canvas_h);
        assert!(1 <= got.content_w && got.content_w <= got.canvas_w);
    }
}

#[test]
fn images_that_fit_are_only_padded() {
    let proc = GlmVlProcessor::new(spec()).ok().unwrap();
    let got = proc.resize_geometry(300, 113).unwrap();
    assert_eq!((got.content_h, got.content_w), (300, 113));
    assert_eq!((got.canvas_h, got.canvas_w), (308, 140));
}

#[test]
fn geometry_refuses_what_has_no_canvas() {
    let proc = GlmVlProcessor::new(spec()).ok().unwrap();
    for (h, w) in [(0, 5), (5, 0), (0, 0)] {
        assert_eq!(
            proc.resize_geometry(h, w).unwrap_err(),
            "glm_vl: empty image"
        );
    }
    for (h, w) in [(usize::MAX, 5), (5, usize::MAX)] {
        assert_eq!(
            proc.resize_geometry(h, w).unwrap_err(),
            "glm_vl: aligned dimension overflow"
        );
    }
}

/// The tallest height that there is: the search does not run over.
#[test]
fn the_search_reaches_the_largest_side() {
    let rules = CanvasRules {
        factor: 5,
        frames: 1,
        min_pixels: 138_350_580_552_821_637_100,
        max_pixels: 138_350_580_552_821_637_100,
    };
    let got = rules.resize_geometry(usize::MAX, 5).unwrap();
    assert_eq!((got.canvas_h, got.canvas_w), (usize::MAX, 5));
}

#[test]
fn preprocessing_refuses_bad_images() {
    let proc = GlmVlProcessor::new(spec()).ok().unwrap();
    let refused = |len: usize, h: usize, w: usize| {
        proc.preprocess_image(&vec![0; len], h, w, no_resize)
            .unwrap_err()
    };
    assert_eq!(
        refused(3, usize::MAX, 2),
        "glm_vl: image dimensions overflow"
    );
    assert_eq!(
        refused(3, 1 << 62, 2),
        "glm_vl: image dimensions overflow"
    );
    assert_eq!(refused(3, 2, 1), "glm_vl: invalid RGB buffer length");
    assert_eq!(refused(0, 0, 1), "glm_vl: empty image");

    let mut s = spec();
    s.patch_size = 1 << 32;
    s.merge_size = 1;
    s.temporal_patch_size = 1;
    s.min_image_tokens = 1;
    let big = GlmVlProcessor::new(s).ok().unwrap();
    assert_eq!(
        big.preprocess_image(&[0; 3], 1, 1, no_resize).unwrap_err(),
        "glm_vl: canvas overflow"
    );
    let mut s = spec();
    s.patch_size = 1;
    s.merge_size = 1;
    s.temporal_patch_size = 1;
    s.min_image_tokens = 1 << 60;
    s.max_image_tokens = 1 << 61;
    let long = GlmVlProcessor::new(s).ok().unwrap();
    assert_eq!(
        long.preprocess_image(&[0; 3 * 64], 64, 1, no_resize)
            .unwrap_err(),
        "glm_vl: grid height overflow"
    );
    assert_eq!(
        long.preprocess_image(&[0; 3 * 64], 1, 64, no_resize)
            .unwrap_err(),
        "glm_vl: grid width overflow"
    );
}

#[test]
fn content_is_resized_and_padded() {
    let mut s = spec();
    s.patch_size = 2;
    s.merge_size = 1;
    s.temporal_patch_size = 1;
    s.min_image_tokens = 1;
    s.max_image_tokens = 6;
    s.image_mean = [number(0.0); 3];
    s.image_std = [number(1.0); 3];
    let proc = GlmVlProcessor::new(s).ok().unwrap();
    // 9 x 7 does not fit 24 pixels: the search gives 6 x 4, with content 5 x 4.
    let sizes = proc.resize_geometry(9, 7).unwrap();
    assert_eq!(
        sizes,
        GlmResize {
            canvas_h: 6,
            canvas_w: 4,
            content_h: 5,
            content_w: 4
        }
    );
    let item = proc
        .preprocess_image(&[9; 9 * 7 * 3], 9, 7, |rgb: &[u8], h, w, th, tw, resample| {
            assert_eq!(rgb.len(), 9 * 7 * 3);
            assert_eq!((h, w, th, tw), (9, 7, 5, 4));
            assert_eq!(resample, Resample::AtenU8);
            vec![255; th * tw * 3]
        })
        .unwrap();
    assert_eq!(item.geometry, Geometry::Grid([1, 3, 2]));
    assert_eq!(item.feature.shape, vec![6, 12]);
    let TensorData::F32(values) = item.feature.data else {
        panic!("expected numbers")
    };
    // The last row of the canvas is padding: the lower half of the last two patches.
    for (patch, row) in values.chunks(12).enumerate() {
        for (k, v) in row.iter().enumerate() {
            let padding = patch >= 4 && (k / 2) % 2 == 1;
            assert_eq!(*v, number(if padding { 0.0 } else { 1.0 }));
        }
    }
}

#[test]
fn padding_keeps_the_content_in_the_corner() {
    let content: Vec<u8> = (1..=2 * 2 * 3).collect();
    let canvas = pad(&content, 2, 2, 3, 3);
    assert_eq!(
        canvas,
        vec![
            1, 2, 3, 4, 5, 6, 0, 0, 0, //
            7, 8, 9, 10, 11, 12, 0, 0, 0, //
            0, 0, 0, 0, 0, 0, 0, 0, 0,
        ]
    );
}

#[test]
fn layout_counts_tokens() {
    let proc = GlmVlProcessor::new(spec()).ok().unwrap();
    let refused =
        |grids: &[Geometry]| proc.layout(&vec![10; grids.len()], grids).unwrap_err();
    assert_eq!(
        refused(&[Geometry::Grid([1, 3, 3])]),
        "glm_vl: patch grid is not divisible by merge size"
    );
    let huge = Geometry::Grid([u32::MAX, u32::MAX, u32::MAX]);
    assert_eq!(refused(&[huge]), "glm_vl: token count overflow");
    // The first item decides.
    assert_eq!(
        refused(&[Geometry::Grid([1, 3, 3]), huge]),
        "glm_vl: patch grid is not divisible by merge size"
    );
    let mut s = spec();
    s.patch_size = 1;
    s.merge_size = 1 << 32;
    s.temporal_patch_size = 1;
    let wide = GlmVlProcessor::new(s).ok().unwrap();
    assert_eq!(
        wide.layout(&[10], &[Geometry::Grid([1, 1, 1])])
            .unwrap_err(),
        "glm_vl: merge size overflow"
    );
    assert_eq!(
        proc.layout(&[13], &[huge]).unwrap_err(),
        "glm_vl: video wrapper token in image prompt"
    );
    let caps = proc.capabilities();
    assert!(!caps.video && !caps.audio);
}

#[test]
fn positions_need_a_grid_for_each_range() {
    let proc = GlmVlProcessor::new(spec()).ok().unwrap();
    let grid = Geometry::Grid([1, 2, 2]);
    assert_eq!(
        proc.positions(3, &[(0, 0)], &[grid, grid]).unwrap_err(),
        "glm_vl: offsets/grid count mismatch"
    );
    assert_eq!(
        proc.positions(2, &[(1, 1)], &[grid]).unwrap(),
        PositionOutput::MRope {
            positions: vec![0, 1, 0, 1, 0, 1],
            delta: 0
        }
    );
    assert_eq!(
        proc.positions(2, &[(1, 2)], &[grid]).unwrap_err(),
        "mrope: item range (1,2) out of order/bounds"
    );
}

#[test]
fn opaque_pixels_keep_their_colour() {
    let rgba: Vec<u8> = (0..=255u8).flat_map(|v| [v, 255 - v, 7, 255]).collect();
    let rgb = composite_alpha(&rgba, 16, 16);
    let kept: Vec<u8> = (0..=255u8).flat_map(|v| [v, 255 - v, 7]).collect();
    assert_eq!(rgb, kept);
    assert_eq!(composite_alpha(&[], 0, 0), Vec::<u8>::new());
}

#[test]
fn only_some_edge_pixels_are_looked_at() {
    // 60 pixels wide: every third pixel of the edges counts.
    let mut rgba = vec![0u8; 60 * 3 * 4];
    rgba[4..8].copy_from_slice(&[255, 255, 255, 255]);
    assert_eq!(composite_alpha(&rgba, 60, 3)[0..3], [255, 255, 255]);
    rgba[12..16].copy_from_slice(&[255, 255, 255, 129]);
    assert_eq!(composite_alpha(&rgba, 60, 3)[0..3], [32, 32, 32]);
    // Half opaque is not opaque.
    rgba[15] = 128;
    assert_eq!(composite_alpha(&rgba, 60, 3)[0..3], [255, 255, 255]);
}

fn stored(color: &str, orientation: u8, width: u32, height: u32, samples: Vec<u8>) -> StoredImage {
    StoredImage {
        color: color.to_string(),
        orientation,
        width,
        height,
        samples,
    }
}

#[test]
fn grey_becomes_three_colours() {
    let grey: Vec<u8> = (0..=255).collect();
    let DecodedMedia::Image { rgb, height, width } =
        to_media(stored("L8", 1, 256, 1, grey)).unwrap();
    assert_eq!((height, width), (1, 256));
    let expected: Vec<u8> = (0..=255u8).flat_map(|v| [v, v, v]).collect();
    assert_eq!(rgb, expected);
}

#[test]
fn grey_with_opacity_becomes_colours() {
    let samples: Vec<u8> = (0..=255u8).flat_map(|v| [v, 255]).collect();
    let DecodedMedia::Image { rgb, .. } = to_media(stored("La8", 1, 256, 1, samples)).unwrap();
    let expected: Vec<u8> = (0..=255u8).flat_map(|v| [v, v, v]).collect();
    assert_eq!(rgb, expected);
    let samples: Vec<u8> = (0..=255u8).flat_map(|a| [0, a]).collect();
    let DecodedMedia::Image { rgb, .. } = to_media(stored("La8", 1, 1, 256, samples)).unwrap();
    let expected: Vec<u8> = (0..=255u32)
        .flat_map(|a| [((240 * (255 - a) + 127) / 255) as u8; 3])
        .collect();
    assert_eq!(rgb, expected);
}

/// The source of each pixel, for all orientations, on a picture whose pixels all
/// differ.
#[test]
fn every_orientation_turns_upright() {
    let (w, h) = (3u32, 2u32);
    for orientation in 1..=8u8 {
        assert_eq!(
            Orientation::from_exif(orientation).unwrap().to_exif(),
            orientation
        );
        let samples: Vec<u8> = (0..w * h * 3).map(|i| i as u8).collect();
        let media = to_media(stored("Rgb8", orientation, w, h, samples)).unwrap();
        let DecodedMedia::Image { rgb, height, width } = media;
        let (tw, th) = if orientation >= 5 { (h, w) } else { (w, h) };
        assert_eq!((width, height), (tw as usize, th as usize));
        for y in 0..th {
            for x in 0..tw {
                let (sx, sy) = match orientation {
                    1 => (x, y),
                    2 => (w - 1 - x, y),
                    3 => (w - 1 - x, h - 1 - y),
                    4 => (x, h - 1 - y),
                    5 => (y, x),
                    6 => (y, h - 1 - x),
                    7 => (w - 1 - y, h - 1 - x),
                    _ => (w - 1 - y, x),
                };
                let at = ((y * tw + x) * 3) as usize;
                let from = ((sy * w + sx) * 3) as u8;
                assert_eq!(rgb[at..at + 3], [from, from + 1, from + 2]);
            }
        }
    }
}

#[test]
fn turning_back_undoes_an_orientation() {
    let samples: Vec<u8> = (0..4 * 3 * 3).collect();
    for (there, back) in [(1, 1), (2, 2), (3, 3), (4, 4), (5, 5), (6, 8), (7, 7), (8, 6)] {
        let DecodedMedia::Image { rgb, height, width } =
            to_media(stored("Rgb8", there, 4, 3, samples.clone())).unwrap();
        let DecodedMedia::Image { rgb, .. } = to_media(stored(
            "Rgb8",
            back,
            width as u32,
            height as u32,
            rgb,
        ))
        .unwrap();
        assert_eq!(rgb, samples);
    }
}

/// What follows the pixels of a buffer stays behind them, unless the sides change.
#[test]
fn longer_buffers_keep_their_rest() {
    let samples: Vec<u8> = (0..2 * 3 + 2).collect();
    for (orientation, expected) in [
        (1, vec![0, 1, 2, 3, 4, 5, 6, 7]),
        (2, vec![3, 4, 5, 0, 1, 2, 6, 7]),
        (3, vec![3, 4, 5, 0, 1, 2, 6, 7]),
        (4, vec![0, 1, 2, 3, 4, 5, 6, 7]),
        (5, vec![0, 1, 2, 3, 4, 5]),
        (6, vec![0, 1, 2, 3, 4, 5]),
        (7, vec![3, 4, 5, 0, 1, 2]),
        (8, vec![3, 4, 5, 0, 1, 2]),
    ] {
        let DecodedMedia::Image { rgb, .. } =
            to_media(stored("Rgb8", orientation, 2, 1, samples.clone())).unwrap();
        assert_eq!(rgb, expected, "orientation {orientation}");
    }
    let DecodedMedia::Image { rgb, .. } = to_media(stored("L8", 1, 2, 1, vec![4, 5, 6])).unwrap();
    assert_eq!(rgb, vec![4, 4, 4, 5, 5, 5]);
    let DecodedMedia::Image { rgb, .. } =
        to_media(stored("La8", 1, 1, 1, vec![4, 255, 6, 7])).unwrap();
    assert_eq!(rgb, vec![4, 4, 4]);
}

#[test]
fn outcomes_of_decoding_have_messages() {
    assert_eq!(
        finish_decoding(Err(DecodeError::Image("broken".to_string()))).unwrap_err(),
        "glm_vl image decode: broken"
    );
    assert_eq!(
        finish_decoding(Err(DecodeError::Orientation("broken".to_string()))).unwrap_err(),
        "glm_vl image orientation: broken"
    );
    assert_eq!(
        finish_decoding(Ok(stored("L16", 1, 1, 1, vec![0, 0]))).unwrap_err(),
        "glm_vl image decode: unsupported color L16"
    );
    assert_eq!(
        finish_decoding(Ok(stored("Rgba8", 1, 0, 1, vec![]))).unwrap_err(),
        "glm_vl image decode: unsupported size"
    );
    assert_eq!(
        finish_decoding(Ok(stored("Rgb8", 6, 0, 1, vec![]))).unwrap(),
        DecodedMedia::Image {
            rgb: vec![],
            height: 0,
            width: 1
        }
    );
}

#[test]
fn decoding_tells_formats_and_colours() {
    let proc = GlmVlProcessor::new(spec()).ok().unwrap();
    assert!(proc
        .decode_image(b"no image at all")
        .unwrap_err()
        .starts_with("glm_vl image decode: "));
    let deep = image::DynamicImage::new_rgb16(2, 1);
    let mut png = Cursor::new(Vec::new());
    deep.write_to(&mut png, image::ImageFormat::Png).unwrap();
    assert_eq!(
        proc.decode_image(&png.into_inner()).unwrap_err(),
        "glm_vl image decode: unsupported color Rgb16"
    );
    let grey = image::GrayImage::from_raw(2, 1, vec![3, 200]).unwrap();
    let mut png = Cursor::new(Vec::new());
    grey.write_to(&mut png, image::ImageFormat::Png).unwrap();
    assert_eq!(
        proc.decode_image(&png.into_inner()).unwrap(),
        DecodedMedia::Image {
            rgb: vec![3, 3, 3, 200, 200, 200],
            height: 1,
            width: 2
        }
    );
    let colours = image::RgbImage::from_raw(1, 2, vec![1, 2, 3, 4, 5, 6]).unwrap();
    for format in [
        image::ImageFormat::Png,
        image::ImageFormat::Bmp,
        image::ImageFormat::Pnm,
        image::ImageFormat::Qoi,
    ] {
        let mut bytes = Cursor::new(Vec::new());
        colours.write_to(&mut bytes, format).unwrap();
        assert_eq!(
            proc.decode_image(&bytes.into_inner()).unwrap(),
            DecodedMedia::Image {
                rgb: vec![1, 2, 3, 4, 5, 6],
                height: 2,
                width: 1
            }
        );
    }
}

/// Budgets above 2^50 pixels can be missed by a rounding.
#[test]
fn huge_canvases_can_miss_one_pixel() {
    let rules = CanvasRules {
        factor: 1,
        frames: 1,
        min_pixels: 4_314_540_112_855_282,
        max_pixels: 1 << 60,
    };
    let got = rules.resize_geometry(10, 10).unwrap();
    assert_eq!((got.canvas_h, got.canvas_w), (65_685_159, 65_685_159));
    assert_eq!((got.canvas_h * got.canvas_w) as u128 + 1, rules.min_pixels);
}
