use ktsteg::encoder::generate_transition_function_table;

#[test]
fn reverse_table_inverts_first_lane_for_seed_five() {
    let (fwd, rev) = generate_transition_function_table(5);
    assert_eq!(fwd.len(), 256);
    assert_eq!(rev.len(), 256);
    assert_eq!(rev[(fwd[0] & 0xff) as usize], 0);
    for b in 0..256usize {
        assert_eq!(rev[(fwd[b] & 0xff) as usize] as usize, b);
    }
}

#[test]
fn reverse_table_inverts_first_lane_for_many_seeds() {
    for seed in [0u64, 1, 2, 5, 10, 1337, u64::MAX] {
        let (fwd, rev) = generate_transition_function_table(seed);
        for b in 0..256usize {
            assert_eq!(rev[(fwd[b] & 0xff) as usize] as usize, b);
            assert_eq!(fwd[rev[b] as usize] & 0xff, b as u64);
        }
    }
}

#[test]
fn first_lane_is_a_permutation() {
    let (fwd, _) = generate_transition_function_table(5);
    let mut seen = [false; 256];
    for b in 0..256usize {
        let low = (fwd[b] & 0xff) as usize;
        assert!(!seen[low]);
        seen[low] = true;
    }
    assert_ne!((fwd[0] ^ fwd[1]) & 0xff, 0);
}

#[test]
fn tables_are_deterministic_per_seed() {
    let first = generate_transition_function_table(5);
    let second = generate_transition_function_table(5);
    assert_eq!(first.0, second.0);
    assert_eq!(first.1, second.1);
}
