//! Dataset construction, validation, and typed-array reads on concrete
//! buffers.

use fastrank::dense_dataset::{
    DenseDataset, FeatureId, InstanceId, NumericValue, TypedArrayRef,
};
use fastrank::errors::RankError;

fn gain_key(g: f32) -> u32 {
    let g = if g == 0.0 { 0.0 } else { g };
    let b = g.to_bits();
    if b & 0x8000_0000 != 0 {
        !b
    } else {
        b | 0x8000_0000
    }
}

fn small_dataset() -> DenseDataset {
    // Two instances, two features, row-major.
    let xs = TypedArrayRef::DenseI32(vec![1, 2, 3, 4]);
    let ys = TypedArrayRef::DenseF32(vec![1.0f32.to_bits(), 0.0f32.to_bits()]);
    let qids = TypedArrayRef::DenseI64(vec![7, 9]);
    DenseDataset::try_new(2, 2, xs, ys, qids, None).unwrap()
}

#[test]
fn typed_array_reads_respect_widths() {
    let a32 = TypedArrayRef::DenseI32(vec![5, -6]);
    assert_eq!(a32.len(), 2);
    assert_eq!(a32.get_i32(0), Some(5));
    assert_eq!(a32.get_i64(1), Some(-6));
    assert_eq!(a32.get_i32(2), None);
    assert_eq!(a32.get_value(1), Some(NumericValue::I32(-6)));

    let a64 = TypedArrayRef::DenseI64(vec![1 << 40]);
    assert_eq!(a64.get_i32(0), None);
    assert_eq!(a64.get_i64(0), Some(1 << 40));

    let f = TypedArrayRef::DenseF32(vec![2.5f32.to_bits()]);
    assert_eq!(f.get_i32(0), None);
    assert_eq!(f.get_i64(0), None);
    match f.get_value(0) {
        Some(NumericValue::F32Bits(b)) => assert_eq!(f32::from_bits(b), 2.5),
        other => panic!("unexpected read: {:?}", other),
    }
}

#[test]
fn feature_values_sit_at_row_major_offsets() {
    let d = small_dataset();
    assert_eq!(d.n_instances(), 2);
    assert_eq!(d.n_dim(), 2);
    for i in 0..2usize {
        for f in 0..2usize {
            let v = d.get_feature_value(InstanceId(i), FeatureId(f));
            // Row-major: instance * num_features + feature, widened exactly.
            let expected = (i * 2 + f + 1) as i32;
            assert_eq!(v, Some(NumericValue::I32(expected)));
            let widened = match v.unwrap() {
                NumericValue::I32(x) => x as f64,
                _ => unreachable!(),
            };
            assert_eq!(widened, expected as f64);
        }
    }
    assert_eq!(d.get_feature_value(InstanceId(2), FeatureId(0)), None);
    assert_eq!(d.get_feature_value(InstanceId(0), FeatureId(2)), None);
}

#[test]
fn float64_feature_values_round_trip_exactly() {
    let values = [0.25f64, -3.5, 1e300, 0.1];
    let xs = TypedArrayRef::DenseF64(values.iter().map(|v| v.to_bits()).collect());
    let ys = TypedArrayRef::DenseF32(vec![0.0f32.to_bits(); 4]);
    let qids = TypedArrayRef::DenseI32(vec![1, 1, 2, 2]);
    let d = DenseDataset::try_new(4, 1, xs, ys, qids, None).unwrap();
    for (i, v) in values.iter().enumerate() {
        match d.get_feature_value(InstanceId(i), FeatureId(0)) {
            Some(NumericValue::F64Bits(b)) => assert_eq!(f64::from_bits(b), *v),
            other => panic!("unexpected read: {:?}", other),
        }
    }
}

#[test]
fn short_label_buffer_fails_with_shape_mismatch() {
    let xs = TypedArrayRef::DenseI32(vec![1, 2, 3, 4]);
    let ys = TypedArrayRef::DenseF32(vec![1.0f32.to_bits()]);
    let qids = TypedArrayRef::DenseI64(vec![7, 9]);
    match DenseDataset::try_new(2, 2, xs, ys, qids, None) {
        Err(RankError::ShapeMismatch { detail }) => assert_eq!(detail, "Bad y-length"),
        other => panic!("expected a shape mismatch, got {:?}", other),
    }
}

#[test]
fn wrong_qid_and_feature_lengths_are_rejected_in_order() {
    let mk = || TypedArrayRef::DenseI32(vec![1, 2, 3, 4]);
    let ys2 = || TypedArrayRef::DenseF32(vec![0u32; 2]);
    match DenseDataset::try_new(
        2,
        2,
        mk(),
        ys2(),
        TypedArrayRef::DenseI64(vec![7]),
        None,
    ) {
        Err(RankError::ShapeMismatch { detail }) => assert_eq!(detail, "Bad qids-length"),
        other => panic!("expected a shape mismatch, got {:?}", other),
    }
    match DenseDataset::try_new(
        2,
        3,
        mk(),
        ys2(),
        TypedArrayRef::DenseI64(vec![7, 9]),
        None,
    ) {
        Err(RankError::ShapeMismatch { detail }) => assert_eq!(detail, "Bad xs-length"),
        other => panic!("expected a shape mismatch, got {:?}", other),
    }
    match DenseDataset::try_new(
        2,
        2,
        mk(),
        ys2(),
        TypedArrayRef::DenseF32(vec![0u32; 2]),
        None,
    ) {
        Err(RankError::ShapeMismatch { detail }) => assert_eq!(detail, "Bad qids-type"),
        other => panic!("expected a shape mismatch, got {:?}", other),
    }
}

#[test]
fn derived_query_strings_are_first_seen_decimal() {
    let d = small_dataset();
    assert_eq!(d.query_id(InstanceId(0)), "7");
    assert_eq!(d.query_id(InstanceId(1)), "9");
    assert_eq!(d.queries(), vec![String::from("7"), String::from("9")]);
    assert_eq!(d.query_ids(), vec![String::from("7"), String::from("9")]);
}

#[test]
fn negative_query_ids_stringify_with_sign() {
    let xs = TypedArrayRef::DenseI32(vec![1]);
    let ys = TypedArrayRef::DenseF32(vec![0u32]);
    let qids = TypedArrayRef::DenseI64(vec![-42]);
    let d = DenseDataset::try_new(1, 1, xs, ys, qids, None).unwrap();
    assert_eq!(d.query_id(InstanceId(0)), "-42");
}

#[test]
fn supplied_query_string_map_is_validated() {
    let mk = || TypedArrayRef::DenseI32(vec![1, 2]);
    let ys = || TypedArrayRef::DenseF32(vec![0u32; 2]);
    let qids = || TypedArrayRef::DenseI64(vec![7, 9]);
    let full = vec![(7i64, String::from("seven")), (9i64, String::from("nine"))];
    let d = DenseDataset::try_new(2, 1, mk(), ys(), qids(), Some(full)).unwrap();
    assert_eq!(d.query_id(InstanceId(0)), "seven");
    assert_eq!(d.query_id(InstanceId(1)), "nine");

    let missing = vec![(7i64, String::from("seven"))];
    match DenseDataset::try_new(2, 1, mk(), ys(), qids(), Some(missing)) {
        Err(RankError::NotFound { name }) => assert_eq!(name, "9"),
        other => panic!("expected a missing query id, got {:?}", other),
    }

    let duplicated = vec![
        (7i64, String::from("a")),
        (7i64, String::from("b")),
        (9i64, String::from("nine")),
    ];
    assert!(DenseDataset::try_new(2, 1, mk(), ys(), qids(), Some(duplicated)).is_err());
}

#[test]
fn instances_group_by_query_in_ascending_order() {
    let xs = TypedArrayRef::DenseI32(vec![0; 5]);
    let ys = TypedArrayRef::DenseF32(vec![0u32; 5]);
    let qids = TypedArrayRef::DenseI64(vec![3, 1, 3, 1, 3]);
    let d = DenseDataset::try_new(5, 1, xs, ys, qids, None).unwrap();
    let groups = d.instances_by_query();
    assert_eq!(groups.len(), 2);
    assert_eq!(groups[0].0, "3");
    assert_eq!(groups[0].1, vec![InstanceId(0), InstanceId(2), InstanceId(4)]);
    assert_eq!(groups[1].0, "1");
    assert_eq!(groups[1].1, vec![InstanceId(1), InstanceId(3)]);
    // Deterministic across repeated calls.
    assert_eq!(d.instances_by_query(), groups);
}

#[test]
fn gains_and_shape_accessors_enumerate_in_order() {
    let d = small_dataset();
    assert_eq!(
        d.gains(),
        vec![
            NumericValue::F32Bits(1.0f32.to_bits()),
            NumericValue::F32Bits(0.0f32.to_bits()),
        ]
    );
    assert_eq!(d.gain(InstanceId(1)), NumericValue::F32Bits(0.0f32.to_bits()));
    assert_eq!(d.features(), vec![FeatureId(0), FeatureId(1)]);
    assert_eq!(d.instances(), vec![InstanceId(0), InstanceId(1)]);
    assert!(!d.is_sampled());
    assert_eq!(d.document_name(InstanceId(0)), None);
    // The gain keys the evaluators consume come from these raw labels.
    assert!(gain_key(1.0) > fastrank::GAIN_ZERO_KEY);
}

#[test]
fn feature_lookup_tries_numbers_then_names() {
    let d = small_dataset();
    assert_eq!(d.try_lookup_feature("1").unwrap(), FeatureId(1));
    assert_eq!(FeatureId::from_index(1).to_index(), 1);
    match d.try_lookup_feature("7") {
        Err(RankError::NotFound { name }) => assert_eq!(name, "7"),
        other => panic!("expected not-found, got {:?}", other),
    }
    match d.try_lookup_feature("title-score") {
        Err(RankError::NotFound { name }) => {
            assert_eq!(name, "title-score");
            let e = RankError::NotFound { name };
            assert_eq!(e.message(), "not found: title-score");
        },
        other => panic!("expected not-found, got {:?}", other),
    }
    // No names are mapped in the dense form, so printing falls back to the
    // decimal index.
    assert_eq!(d.feature_name(FeatureId(1)), "1");
    assert_eq!(d.feature_name(FeatureId(17)), "17");
}

#[test]
fn shared_handle_keeps_the_dataset_readable() {
    let d = small_dataset();
    let handle = d.into_ref();
    let again = handle.data.clone();
    assert_eq!(again.n_instances(), 2);
    assert_eq!(handle.data.query_id(InstanceId(0)), "7");
}

#[test]
fn numeric_feature_lookup_accepts_leading_zeros() {
    let d = small_dataset();
    assert_eq!(d.try_lookup_feature("01").unwrap(), FeatureId(1));
    assert_eq!(d.try_lookup_feature("0").unwrap(), FeatureId(0));
    // Far beyond any machine index: falls through and is not found.
    assert!(d.try_lookup_feature("99999999999999999999999999").is_err());
}

#[test]
fn instance_ids_convert_to_and_from_indices() {
    let id = InstanceId::from_index(3);
    assert_eq!(id.to_index(), 3);
    assert_eq!(id, InstanceId(3));
}
