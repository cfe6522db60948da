//! Direct contracts of the packing step: error texts, the order of the checks, and
//! what a packed request holds.
use sglang_mm_core::binary32::Binary32;
use sglang_mm_core::grid_packing;
use sglang_mm_core::pipeline::{Output, OutputItem, PositionOutput, Tensor, TensorData};
use sglang_mm_core::qwen_vl;

fn rejection(result: Result<qwen_vl::QwenPackedOutput, String>) -> String {
    match result {
        Ok(_) => panic!("expected packing to reject this output"),
        Err(message) => message,
    }
}

fn tensor(shape: Vec<usize>, data: TensorData) -> Tensor {
    Tensor { shape, data }
}

fn grid_aux(grid: [i64; 3]) -> (String, Tensor) {
    (
        "image_grid_thw".to_string(),
        tensor(vec![3], TensorData::I64(grid.to_vec())),
    )
}

fn item(feature: Tensor, aux: Vec<(String, Tensor)>, hash: u64) -> OutputItem {
    OutputItem { feature, aux, hash }
}

fn numbers(values: &[f32]) -> Vec<Binary32> {
    values
        .iter()
        .map(|v| Binary32 { bits: v.to_bits() })
        .collect()
}

fn f32_feature(values: &[f32]) -> Tensor {
    tensor(vec![values.len()], TensorData::F32(numbers(values)))
}

fn mrope(positions: Vec<i64>, delta: i64) -> PositionOutput {
    PositionOutput::MRope { positions, delta }
}

#[test]
fn rope1d_positions_are_rejected() {
    let output = Output {
        input_ids: vec![7, 900, 8],
        items: vec![item(f32_feature(&[1.0]), vec![grid_aux([1, 2, 2])], 11)],
        offsets: vec![(1, 1)],
        positions: PositionOutput::Rope1D,
    };
    assert_eq!(
        rejection(qwen_vl::pack_output(output)),
        "qwen_vl pack: expected M-RoPE positions"
    );
}

#[test]
fn non_f32_primary_feature_is_rejected() {
    let output = Output {
        input_ids: vec![7, 900, 8],
        items: vec![item(
            tensor(vec![2], TensorData::Bf16(vec![0x3f80, 0xbf80])),
            vec![grid_aux([1, 2, 2])],
            11,
        )],
        offsets: vec![(1, 1)],
        positions: mrope(vec![0, 1, 2, 0, 1, 2, 0, 1, 2], 0),
    };
    assert_eq!(
        rejection(qwen_vl::pack_output(output)),
        "qwen_vl pack: expected f32 feature"
    );
}

#[test]
fn missing_grid_aux_is_rejected() {
    let output = Output {
        input_ids: vec![7, 900, 8],
        items: vec![item(f32_feature(&[1.0, 2.0]), vec![], 11)],
        offsets: vec![(1, 1)],
        positions: mrope(vec![0, 1, 2, 0, 1, 2, 0, 1, 2], 0),
    };
    assert_eq!(
        rejection(qwen_vl::pack_output(output)),
        "qwen_vl pack: missing image_grid_thw"
    );
}

#[test]
fn wrong_dtype_grid_aux_is_rejected_as_missing() {
    let output = Output {
        input_ids: vec![7, 900, 8],
        items: vec![item(
            f32_feature(&[1.0, 2.0]),
            vec![(
                "image_grid_thw".to_string(),
                tensor(vec![3], TensorData::F32(numbers(&[1.0, 2.0, 2.0]))),
            )],
            11,
        )],
        offsets: vec![(1, 1)],
        positions: mrope(vec![0, 1, 2, 0, 1, 2, 0, 1, 2], 0),
    };
    assert_eq!(
        rejection(qwen_vl::pack_output(output)),
        "qwen_vl pack: missing image_grid_thw"
    );
}

/// Every later check fails too, so the message shows which one comes first.
#[test]
fn positions_are_checked_before_item_features() {
    let output = Output {
        input_ids: vec![7, 900, 8],
        items: vec![item(
            tensor(vec![1], TensorData::Bf16(vec![0x3f80])),
            vec![],
            11,
        )],
        offsets: vec![(1, 1)],
        positions: PositionOutput::Rope1D,
    };
    assert_eq!(
        rejection(qwen_vl::pack_output(output)),
        "qwen_vl pack: expected M-RoPE positions"
    );
}

/// The grid is missing as well, so the feature is looked at first.
#[test]
fn item_features_are_checked_before_the_grid_lookup() {
    let output = Output {
        input_ids: vec![7, 900, 8],
        items: vec![item(
            tensor(vec![1], TensorData::Bf16(vec![0x3f80])),
            vec![],
            11,
        )],
        offsets: vec![(1, 1)],
        positions: mrope(vec![0, 1, 2, 0, 1, 2, 0, 1, 2], 0),
    };
    assert_eq!(
        rejection(qwen_vl::pack_output(output)),
        "qwen_vl pack: expected f32 feature"
    );
}

/// Two items whose features, grids and hashes all differ, so their order shows.
/// `-0.0` is compared by its bits.
#[test]
fn two_items_pack_in_prompt_order() {
    let first = [-0.0f32, 0.0, 1.5, -2.25];
    let second = [3.5f32, -0.0];
    let positions = vec![
        0, 1, 1, 2, 3, 3, //
        0, 1, 2, 2, 3, 4, //
        0, 1, 1, 3, 3, 4,
    ];
    let output = Output {
        input_ids: vec![7, 900, 900, 8, 900, 9],
        items: vec![
            item(f32_feature(&first), vec![grid_aux([1, 4, 4])], 0xA1),
            item(f32_feature(&second), vec![grid_aux([1, 2, 2])], 0xB2),
        ],
        offsets: vec![(1, 2), (4, 4)],
        positions: mrope(positions.clone(), 3),
    };

    let packed: qwen_vl::QwenPackedOutput = match qwen_vl::pack_output(output) {
        Ok(packed) => packed,
        Err(message) => panic!("expected packing to succeed: {message}"),
    };

    assert_eq!(packed.input_ids, vec![7, 900, 900, 8, 900, 9]);
    let expected_bits: Vec<u32> = first
        .iter()
        .chain(second.iter())
        .map(|value| value.to_bits())
        .collect();
    let packed_bits: Vec<u32> = packed.features.iter().map(|value| value.bits).collect();
    assert_eq!(packed_bits, expected_bits);
    assert_eq!(packed.grids, vec![[1, 4, 4], [1, 2, 2]]);
    assert_eq!(packed.hashes, vec![0xA1, 0xB2]);
    assert_eq!(packed.offsets, vec![(1, 2), (4, 4)]);
    assert_eq!(packed.mrope, positions);
    assert_eq!(packed.mrope_delta, 3);
}

#[test]
fn a_second_family_label_only_changes_the_message_prefix() {
    let rope1d = Output {
        input_ids: vec![7, 900, 8],
        items: vec![item(f32_feature(&[1.0]), vec![grid_aux([1, 2, 2])], 11)],
        offsets: vec![(1, 1)],
        positions: PositionOutput::Rope1D,
    };
    assert_eq!(
        rejection(grid_packing::pack_grid_output(rope1d, "other_vl")),
        "other_vl pack: expected M-RoPE positions"
    );

    let wrong_dtype = Output {
        input_ids: vec![7, 900, 8],
        items: vec![item(
            tensor(vec![2], TensorData::Bf16(vec![0x3f80, 0xbf80])),
            vec![grid_aux([1, 2, 2])],
            11,
        )],
        offsets: vec![(1, 1)],
        positions: mrope(vec![0, 1, 2, 0, 1, 2, 0, 1, 2], 0),
    };
    assert_eq!(
        rejection(grid_packing::pack_grid_output(wrong_dtype, "other_vl")),
        "other_vl pack: expected f32 feature"
    );

    let no_grid = Output {
        input_ids: vec![7, 900, 8],
        items: vec![item(f32_feature(&[1.0, 2.0]), vec![], 11)],
        offsets: vec![(1, 1)],
        positions: mrope(vec![0, 1, 2, 0, 1, 2, 0, 1, 2], 0),
    };
    assert_eq!(
        rejection(grid_packing::pack_grid_output(no_grid, "other_vl")),
        "other_vl pack: missing image_grid_thw"
    );
}

#[test]
fn the_retained_qwen_entry_point_forwards_to_the_moved_function() {
    let values = [1.0_f32, 2.0, 3.0, 4.0];
    let positions = vec![0, 1, 1, 2, 0, 1, 2, 2, 0, 1, 1, 2];
    let build = || Output {
        input_ids: vec![7, 900, 900, 8],
        items: vec![item(f32_feature(&values), vec![grid_aux([1, 2, 2])], 0xC3)],
        offsets: vec![(1, 2)],
        positions: mrope(positions.clone(), 2),
    };

    let through_wrapper = qwen_vl::pack_output(build()).expect("wrapper packs");
    let through_moved =
        grid_packing::pack_grid_output(build(), "qwen_vl").expect("moved function packs");

    assert_eq!(through_wrapper.input_ids, through_moved.input_ids);
    assert_eq!(through_wrapper.features, through_moved.features);
    assert_eq!(through_wrapper.grids, through_moved.grids);
    assert_eq!(through_wrapper.hashes, through_moved.hashes);
    assert_eq!(through_wrapper.offsets, through_moved.offsets);
    assert_eq!(through_wrapper.mrope, through_moved.mrope);
    assert_eq!(through_wrapper.mrope_delta, through_moved.mrope_delta);
}

#[test]
fn packing_error_uses_family_label() {
    let output = Output {
        input_ids: vec![],
        items: vec![],
        offsets: vec![],
        positions: PositionOutput::Rope1D,
    };
    assert_eq!(
        grid_packing::pack_grid_output(output, "glm_vl")
            .err()
            .as_deref(),
        Some("glm_vl pack: expected M-RoPE positions")
    );
}

#[test]
fn a_grid_needs_three_positive_32_bit_sides() {
    for grid in [
        vec![1, 2],
        vec![1, 2, 2, 1],
        vec![1, 0, 2],
        vec![1, 2, -2],
        vec![1, 2, 1 << 32],
    ] {
        let output = Output {
            input_ids: vec![],
            items: vec![item(
                f32_feature(&[1.0]),
                vec![(
                    "image_grid_thw".to_string(),
                    tensor(vec![grid.len()], TensorData::I64(grid)),
                )],
                0,
            )],
            offsets: vec![],
            positions: mrope(vec![], 0),
        };
        assert_eq!(
            rejection(qwen_vl::pack_output(output)),
            "qwen_vl pack: invalid image_grid_thw"
        );
    }
}

#[test]
fn the_first_integer_grid_is_taken() {
    let output = Output {
        input_ids: vec![],
        items: vec![item(
            f32_feature(&[]),
            vec![
                grid_aux_named("other", [9, 9, 9]),
                (
                    "image_grid_thw".to_string(),
                    tensor(vec![3], TensorData::F32(numbers(&[1.0, 2.0, 2.0]))),
                ),
                grid_aux([1, 6, 4]),
                grid_aux([2, 2, 2]),
            ],
            5,
        )],
        offsets: vec![],
        positions: mrope(vec![], 0),
    };
    let packed = qwen_vl::pack_output(output).unwrap();
    assert_eq!(packed.grids, vec![[1, 6, 4]]);
}

fn grid_aux_named(name: &str, grid: [i64; 3]) -> (String, Tensor) {
    (
        name.to_string(),
        tensor(vec![3], TensorData::I64(grid.to_vec())),
    )
}
