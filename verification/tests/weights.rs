use ktsteg::encoder::kt_search_tree::{
    calculate_bit_weights_for_step, calculate_byte_value_weights_for_step,
};

const WEIGHT_SCALE: f32 = 65536.0;

fn weight_of_probability(p: f32) -> u64 {
    ((-p.ln()) * WEIGHT_SCALE) as u64
}

#[test]
fn uniform_probabilities_give_equal_byte_weights() {
    // p = 0.5 for every bit: both bit weights are scale * ln 2 and every
    // byte value costs eight of them.
    let w = weight_of_probability(0.5);
    let zero = vec![w; 8];
    let one = vec![w; 8];
    let weights = calculate_byte_value_weights_for_step(&zero, &one, 0);
    assert_eq!(weights.len(), 256);
    for v in 0..256usize {
        assert_eq!(weights[v], 8 * w);
    }
}

#[test]
fn bit_weights_slice_the_right_step() {
    let zero: Vec<u64> = (0..24u64).collect();
    let one: Vec<u64> = (100..124u64).collect();
    let (z, o) = calculate_bit_weights_for_step(&zero, &one, 1);
    assert_eq!(z, (8..16u64).collect::<Vec<u64>>());
    assert_eq!(o, (108..116u64).collect::<Vec<u64>>());
}

#[test]
fn byte_weight_sums_bits_lsb_first() {
    // distinct powers let the sum identify each selected bit
    let zero = vec![0u64; 8];
    let one: Vec<u64> = (0..8u64).map(|i| 1u64 << i).collect();
    let weights = calculate_byte_value_weights_for_step(&zero, &one, 0);
    for v in 0..256usize {
        // with these weights the cost of v is v itself
        assert_eq!(weights[v], v as u64);
    }
}

#[test]
fn byte_weights_are_deterministic_and_order_insensitive_for_equal_bits() {
    let mut zero: Vec<u64> = vec![7, 7, 3, 9, 11, 2, 2, 5];
    let one: Vec<u64> = vec![1, 4, 4, 8, 6, 6, 10, 12];
    let first = calculate_byte_value_weights_for_step(&zero, &one, 0);
    let again = calculate_byte_value_weights_for_step(&zero, &one, 0);
    assert_eq!(first, again);
    // swapping two equal zero-weights leaves every total unchanged
    zero.swap(0, 1);
    let swapped = calculate_byte_value_weights_for_step(&zero, &one, 0);
    assert_eq!(first, swapped);
}
