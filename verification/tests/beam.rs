use ktsteg::encoder::kt_search_tree::{calculate_minmax_weight, SearchNode};
use ktsteg::encoder::{KTEncoder, StandardKTEncoder};

fn uniform_bit_weights(bits: usize) -> (Vec<u64>, Vec<u64>) {
    let w = ((0.5f32.ln().abs()) * 65536.0) as u64;
    (vec![w; bits], vec![w; bits])
}

#[test]
fn single_step_beam_carries_the_first_six_message_bits() {
    // message "A" = 0x41, LSB-first bits 1,0,0,0,0,0,1,0; one step with two
    // freedom bits carries the first six of them.
    let coder = StandardKTEncoder::new(5);
    let (zero, one) = uniform_bit_weights(8);
    let message = vec![0x41u8];
    let encoded = coder.encode(&message, &zero, &one, 1, 2);
    assert_eq!(encoded.len(), 1);
    let decoded = coder.decode(&encoded, 1, 2);
    assert_eq!(decoded, vec![0b000001u8]);
}

#[test]
fn beam_is_deterministic() {
    let coder = StandardKTEncoder::new(5);
    let (zero, one) = uniform_bit_weights(64);
    let message = b"determinism".to_vec();
    let first = coder.encode(&message, &zero, &one, 8, 2);
    let second = coder.encode(&message, &zero, &one, 8, 2);
    assert_eq!(first, second);
}

#[test]
fn zero_freedom_bits_give_the_plain_stream_of_reversed_bytes() {
    // With F = 0 each template is the whole message byte read LSB-first
    // into positions 7..0, so the beam output is the straight KT stream of
    // the bit-reversed message bytes.
    let coder = StandardKTEncoder::new(5);
    let (zero, one) = uniform_bit_weights(40);
    let message = b"hello".to_vec();
    let encoded = coder.encode(&message, &zero, &one, 5, 0);
    assert_eq!(encoded.len(), 5);

    let mut state = 0u64;
    let mut straight = Vec::new();
    for &b in &message {
        let (e, s) = coder.encode_byte(b.reverse_bits(), state);
        straight.push(e);
        state = s;
    }
    assert_eq!(encoded, straight);

    let decoded = coder.decode(&encoded, 5, 0);
    assert_eq!(decoded, message);
}

#[test]
fn message_longer_than_capacity_is_truncated() {
    // capacity 2 at two freedom bits carries 12 message bits: the first
    // byte and the low nibble of the second.
    let coder = StandardKTEncoder::new(5);
    let (zero, one) = uniform_bit_weights(16);
    let message = vec![0xA5u8, 0xFF, 0x77, 0x12];
    let encoded = coder.encode(&message, &zero, &one, 2, 2);
    assert_eq!(encoded.len(), 2);
    let decoded = coder.decode(&encoded, 2, 2);
    assert_eq!(decoded, vec![0xA5u8, 0x0F]);
}

#[test]
fn short_message_is_zero_padded() {
    let coder = StandardKTEncoder::new(5);
    let (zero, one) = uniform_bit_weights(64);
    let message = vec![0x5Au8];
    let encoded = coder.encode(&message, &zero, &one, 8, 2);
    assert_eq!(encoded.len(), 8);
    let decoded = coder.decode(&encoded, 8, 2);
    assert_eq!(decoded.len(), 6);
    assert_eq!(decoded[0], 0x5A);
    for &b in &decoded[1..] {
        assert_eq!(b, 0);
    }
}

#[test]
fn round_trip_across_freedom_bit_counts() {
    // varied weights keep the quantile pruner effective, so the beam stays
    // within its cap at every freedom-bit count
    let coder = StandardKTEncoder::new(5);
    let message = b"freedom".to_vec();
    for f in 0..=3u8 {
        let width = (8 - f) as usize;
        let capacity = (message.len() * 8 + width - 1) / width;
        let bits = 8 * capacity;
        let zero: Vec<u64> = (0..bits).map(|i| 3_000 + 37 * (i as u64 % 97)).collect();
        let one: Vec<u64> = (0..bits).map(|i| 9_000 + 53 * (i as u64 % 83)).collect();
        let encoded = coder.encode(&message, &zero, &one, capacity as u64, f);
        assert_eq!(encoded.len(), capacity);
        let decoded = coder.decode(&encoded, capacity as u64, f);
        assert!(decoded.len() >= message.len());
        assert_eq!(&decoded[..message.len()], &message[..]);
        for &b in &decoded[message.len()..] {
            assert_eq!(b, 0);
        }
    }
}

#[test]
fn pruning_threshold_admits_at_most_the_beam_cap() {
    // a frontier of 3000 spread-out weights must be cut to 10_000 >> 2
    let nodes: Vec<SearchNode> = (0..3000u64)
        .map(|k| SearchNode::new(None, 0, 0, 10 * k))
        .collect();
    let (max_weight, min_weight) = calculate_minmax_weight(&nodes, 2);
    assert_eq!(min_weight, 0);
    let admitted = nodes
        .iter()
        .filter(|n| (n.weight as i128) <= max_weight)
        .count();
    assert!(admitted <= 2500);
    assert!(admitted > 0);
}

#[test]
fn minimum_weight_is_non_decreasing_between_calls() {
    // the returned minimum is the frontier minimum, which only grows as
    // weights accumulate
    let early: Vec<SearchNode> = (0..10u64).map(|k| SearchNode::new(None, 0, 0, k)).collect();
    let later: Vec<SearchNode> = (0..10u64)
        .map(|k| SearchNode::new(None, 0, 0, 5 + k))
        .collect();
    let (_, min_early) = calculate_minmax_weight(&early, 2);
    let (_, min_later) = calculate_minmax_weight(&later, 2);
    assert!(min_early <= min_later);
}

#[test]
fn empty_message_encodes_as_zero_bits() {
    // running out of message bits is not an error: missing bits read as 0
    let coder = StandardKTEncoder::new(5);
    let (zero, one) = uniform_bit_weights(24);
    let message: Vec<u8> = Vec::new();
    let encoded = coder.encode(&message, &zero, &one, 3, 2);
    assert_eq!(encoded.len(), 3);
    let decoded = coder.decode(&encoded, 3, 2);
    for &b in &decoded {
        assert_eq!(b, 0);
    }
}

#[test]
fn overloaded_bottom_bucket_collapses_the_threshold() {
    // 2501 paths tied at the minimum plus one heavy one: the bottom bucket
    // alone reaches the cap, so the quantile cut lands below every weight
    // and nothing would survive the next step
    let mut nodes: Vec<SearchNode> = (0..2501u64)
        .map(|_| SearchNode::new(None, 0, 0, 0))
        .collect();
    nodes.push(SearchNode::new(None, 0, 0, 1_000_000));
    let (max_weight, min_weight) = calculate_minmax_weight(&nodes, 2);
    assert_eq!(min_weight, 0);
    assert!(max_weight < 0);
    let admitted = nodes
        .iter()
        .filter(|n| (n.weight as i128) <= max_weight)
        .count();
    assert_eq!(admitted, 0);
}
