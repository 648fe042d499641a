use rusttransformer::architecture::{
    dense_bias_lengths, dense_weight_shapes, push_decimal, Activation, Architecture, WeightShape,
    NUM_CLASSES,
};

#[test]
fn push_decimal_writes_digits() {
    let mut s = String::from("n=");
    push_decimal(&mut s, 0);
    assert_eq!(s, "n=0");
    push_decimal(&mut s, 9);
    push_decimal(&mut s, 10);
    push_decimal(&mut s, 1700084491);
    assert_eq!(s, "n=09101700084491");
    let mut t = String::new();
    push_decimal(&mut t, u64::MAX);
    assert_eq!(t, "18446744073709551615");
}

#[test]
fn activation_follows_the_flags() {
    assert_eq!(Activation::of(true, false), Activation::Linear);
    assert_eq!(Activation::of(true, true), Activation::Linear);
    assert_eq!(Activation::of(false, true), Activation::Softmax);
    assert_eq!(Activation::of(false, false), Activation::Relu);
}

#[test]
fn only_the_rectifier_gates_the_error() {
    assert!(Activation::Relu.gates_error());
    assert!(!Activation::Softmax.gates_error());
    assert!(!Activation::Linear.gates_error());
}

#[test]
fn weight_shapes_link_neighbouring_layers() {
    assert_eq!(
        dense_weight_shapes(&vec![12, 5, 2]),
        Some(vec![WeightShape { rows: 12, cols: 5 }, WeightShape { rows: 5, cols: 2 }])
    );
    assert_eq!(dense_weight_shapes(&vec![7]), Some(vec![]));
    assert_eq!(dense_weight_shapes(&vec![]), None);
}

#[test]
fn the_input_layer_has_no_bias() {
    assert_eq!(dense_bias_lengths(&vec![12, 5, 2]), vec![0, 5, 2]);
    assert_eq!(dense_bias_lengths(&vec![]), Vec::<usize>::new());
}

#[test]
fn architecture_needs_heads_that_divide_the_dimensionality() {
    assert!(Architecture::new(10, 64, 1, 1, 100).is_some());
    assert!(Architecture::new(10, 64, 1, 8, 100).is_some());
    assert!(Architecture::new(10, 64, 1, 3, 100).is_none());
    assert!(Architecture::new(10, 64, 1, 0, 100).is_none());
    assert!(Architecture::new(usize::MAX, 2, 1, 1, 100).is_none());
}

#[test]
fn architecture_widths() {
    let a = Architecture::new(10, 64, 2, 4, 100).unwrap();
    assert_eq!(a.head_width(), 16);
    assert_eq!(a.head_columns(0), (0, 16));
    assert_eq!(a.head_columns(1), (16, 32));
    assert_eq!(a.head_columns(3), (48, 64));
    assert_eq!(a.flat_width(), 640);
    assert_eq!(a.feed_forward_sizes(), vec![640, 100, 640]);
    assert_eq!(a.classifier_sizes(), vec![640, NUM_CLASSES]);
    assert_eq!(NUM_CLASSES, 2);
}

#[test]
fn model_file_name_holds_time_and_hyperparameters() {
    let a = Architecture::new(7, 64, 1, 2, 100).unwrap();
    assert_eq!(a.model_file_name(1700084491), "1700084491_chtbt_model_7_64_1_2_100.json");
    let zero = Architecture {
        num_words: 0,
        dimensionality: 0,
        num_encoders: 0,
        num_heads: 0,
        hidden_layer_size: 0,
    };
    assert_eq!(zero.model_file_name(0), "0_chtbt_model_0_0_0_0_0.json");
}
