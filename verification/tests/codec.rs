use ktsteg::encoder::{KTEncoder, StandardKTEncoder};

#[test]
fn byte_round_trip_over_all_bytes_and_sampled_states() {
    let coder = StandardKTEncoder::new(5);
    let states = [
        0u64,
        1,
        42,
        0xdead_beef,
        0x0123_4567_89ab_cdef,
        u64::MAX,
        0x8000_0000_0000_0000,
    ];
    for &state in states.iter() {
        for b in 0..=255u8 {
            let (emitted, new_state) = coder.encode_byte(b, state);
            let (plain, decoded_state) = coder.decode_byte(emitted, state);
            assert_eq!(plain, b);
            assert_eq!(decoded_state, new_state);
        }
    }
}

#[test]
fn stream_round_trip_from_state_zero() {
    let coder = StandardKTEncoder::new(5);
    let message: Vec<u8> = (0..=255u8).chain([17, 99, 0, 255, 3]).collect();

    let mut state = 0u64;
    let mut emitted = Vec::new();
    for &b in &message {
        let (e, s) = coder.encode_byte(b, state);
        emitted.push(e);
        state = s;
    }
    assert_eq!(emitted.len(), message.len());

    let mut state = 0u64;
    let mut recovered = Vec::new();
    for &e in &emitted {
        let (p, s) = coder.decode_byte(e, state);
        recovered.push(p);
        state = s;
    }
    assert_eq!(recovered, message);
}

#[test]
fn known_bytes_round_trip_from_state_zero() {
    let coder = StandardKTEncoder::new(5);
    let message = [0x41u8, 0x42, 0x43];
    let mut state = 0u64;
    let mut emitted = Vec::new();
    for &b in &message {
        let (e, s) = coder.encode_byte(b, state);
        emitted.push(e);
        state = s;
    }
    let mut state = 0u64;
    for (k, &e) in emitted.iter().enumerate() {
        let (p, s) = coder.decode_byte(e, state);
        assert_eq!(p, message[k]);
        state = s;
    }
}

#[test]
fn legacy_step_matches_the_codec() {
    let (fwd, _rev) = ktsteg::search_encoding_tree::generate_transition_function_table();
    let coder = StandardKTEncoder::new(1);
    for b in 0..=255u8 {
        let (next_state, emitted) = ktsteg::search_encoding_tree::encode((0, b), &fwd);
        let (e, s) = coder.encode_byte(b, 0);
        assert_eq!(emitted, e);
        assert_eq!(next_state, s);
    }
}
