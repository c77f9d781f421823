//! The KT codec: a randomized bijective byte-at-a-time automaton.
//!
//! A 64-bit state is made of eight stacked 8-bit lanes. A forward table
//! `FWD[0..256]` packs eight seeded random permutations of `0..=255`, one per
//! lane; emitting a byte XORs the state with a table entry and rotates the
//! state right by one lane. The reverse table `REV` inverts the first lane's
//! permutation, which is exactly what decoding needs: the low byte of the
//! XOR-ed state is the first-lane image of the plain byte.

pub mod kt_search_tree;

use vstd::prelude::*;

use vstd::arithmetic::div_mod::{
    lemma_add_mod_noop, lemma_mod_multiples_basic, lemma_mod_multiples_vanish, lemma_mod_twice,
};
use vstd::arithmetic::mul::lemma_mul_upper_bound;

verus! {

pub const BLOCK_SIZE: u8 = 8;

pub const STATE_COUNT: usize = 256;

pub const MASK: usize = 255;

pub type ByteEncodingCapacity = u64;

/// The low 8-bit lane of a state or table entry.
pub open spec fn low_byte(x: u64) -> u64 {
    x & 0xff
}

/// What table construction guarantees: the low-byte projection of `fwd` is a
/// permutation of `0..=255` and `rev` is its two-sided inverse.
pub open spec fn transition_tables_wf(fwd: Seq<u64>, rev: Seq<u64>) -> bool {
    &&& fwd.len() == 256
    &&& rev.len() == 256
    &&& forall|v: int| 0 <= v < 256 ==> #[trigger] rev[v] < 256
    &&& forall|b: int| 0 <= b < 256 ==> rev[low_byte(#[trigger] fwd[b]) as int] == b
    &&& forall|v: int| 0 <= v < 256 ==> low_byte(fwd[#[trigger] rev[v] as int]) == v
}

proof fn lemma_low_byte_is_mod(x: u64)
    by (bit_vector)
    ensures
        low_byte(x) == x % 256,
        low_byte(x) < 256,
{
}

proof fn lemma_low_byte_small(x: u64)
    by (bit_vector)
    requires
        x < 256,
    ensures
        low_byte(x) == x,
{
}

/// Adding a multiple of 256 (with wraparound at 2^64, itself a multiple of
/// 256) leaves the low lane unchanged.
proof fn lemma_wrapping_add_keeps_low_byte(a: u64, b: u64)
    requires
        b % 256 == 0,
    ensures
        low_byte(a.wrapping_add(b)) == low_byte(a),
{
    let s = a.wrapping_add(b);
    lemma_low_byte_is_mod(a);
    lemma_low_byte_is_mod(s);
    if a + b > u64::MAX {
        assert(s == a + b - 0x1_0000_0000_0000_0000);
        lemma_mod_multiples_vanish(-0x100_0000_0000_0000, a + b, 256);
        assert(256 * (-0x100_0000_0000_0000) + (a + b) == s as int);
    }
    lemma_add_mod_noop(a as int, b as int, 256);
    lemma_mod_twice(a as int, 256);
}

/// `256^p`, the lane multiplier of pass `p`.
pub open spec fn pow256(p: nat) -> nat
    decreases p,
{
    if p == 0 {
        1
    } else {
        256 * pow256((p - 1) as nat)
    }
}

proof fn lemma_pow256_values()
    ensures
        pow256(0) == 1,
        pow256(1) == 0x100,
        pow256(2) == 0x1_0000,
        pow256(3) == 0x100_0000,
        pow256(4) == 0x1_0000_0000,
        pow256(5) == 0x100_0000_0000,
        pow256(6) == 0x1_0000_0000_0000,
        pow256(7) == 0x100_0000_0000_0000,
{
    reveal_with_fuel(pow256, 9);
}

proof fn lemma_pow256_bounds(p: nat)
    requires
        p <= 7,
    ensures
        1 <= pow256(p) <= 0x100_0000_0000_0000,
        p >= 1 ==> pow256(p) % 256 == 0,
        p >= 1 ==> pow256(p) != 1,
{
    lemma_pow256_values();
    if p == 0 {
    } else if p == 1 {
    } else if p == 2 {
    } else if p == 3 {
    } else if p == 4 {
    } else if p == 5 {
    } else if p == 6 {
    } else {
        assert(p == 7);
    }
    if p >= 1 {
        let q = pow256((p - 1) as nat);
        assert(pow256(p) == 256 * q);
        lemma_mod_multiples_basic(q as int, 256);
        assert((q * 256) % 256 == 0);
        assert(256 * q == q * 256) by (nonlinear_arith);
    }
}

/// Lane `lane` of a packed table entry: its `lane`-th byte, low lane first.
pub open spec fn lane_of(x: u64, lane: int) -> u64 {
    (x >> ((8 * lane) as u64)) & 0xff
}

/// Each of the eight 8-bit lanes of `fwd` packs its own permutation of
/// `0..=255`: within every lane, distinct byte values have distinct lane
/// values (and a lane value is always below 256).
pub open spec fn transition_lanes_wf(fwd: Seq<u64>) -> bool {
    &&& fwd.len() == 256
    &&& forall|lane: int, b1: int, b2: int|
        0 <= lane < 8 && 0 <= b1 < 256 && 0 <= b2 < 256 && b1 != b2 ==> #[trigger] lane_of(
            fwd[b1],
            lane,
        ) != #[trigger] lane_of(fwd[b2], lane)
}

proof fn lemma_pow256_le_all(p: nat)
    requires
        p <= 8,
    ensures
        1 <= pow256(p) <= 0x1_0000_0000_0000_0000,
{
    lemma_pow256_values();
    reveal_with_fuel(pow256, 9);
    if p == 0 {
    } else if p == 1 {
    } else if p == 2 {
    } else if p == 3 {
    } else if p == 4 {
    } else if p == 5 {
    } else if p == 6 {
    } else if p == 7 {
    } else {
        assert(p == 8);
        assert(pow256(8) == 256 * pow256(7));
    }
}

proof fn lemma_pow256_mul(a: nat, b: nat)
    ensures
        pow256((a + b) as nat) == pow256(a) * pow256(b),
    decreases a,
{
    if a == 0 {
        assert(pow256(b) == 1 * pow256(b)) by (nonlinear_arith);
    } else {
        lemma_pow256_mul((a - 1) as nat, b);
        assert(pow256((a + b) as nat) == 256 * pow256(((a - 1) + b) as nat));
        assert(256 * (pow256((a - 1) as nat) * pow256(b)) == (256 * pow256((a - 1) as nat))
            * pow256(b)) by (nonlinear_arith);
    }
}

proof fn lemma_lane_of_div(x: u64)
    by (bit_vector)
    ensures
        lane_of(x, 0) == x % 0x100,
        lane_of(x, 1) == (x / 0x100) % 0x100,
        lane_of(x, 2) == (x / 0x1_0000) % 0x100,
        lane_of(x, 3) == (x / 0x100_0000) % 0x100,
        lane_of(x, 4) == (x / 0x1_0000_0000) % 0x100,
        lane_of(x, 5) == (x / 0x100_0000_0000) % 0x100,
        lane_of(x, 6) == (x / 0x1_0000_0000_0000) % 0x100,
        lane_of(x, 7) == (x / 0x100_0000_0000_0000) % 0x100,
{
}

#[verifier::rlimit(100)]
proof fn lemma_lane_of_is_div(x: u64, lane: int)
    requires
        0 <= lane < 8,
    ensures
        lane_of(x, lane) == ((x as int) / (pow256(lane as nat) as int)) % 256,
{
    lemma_pow256_values();
    if lane == 0 {
        assert(lane_of(x, 0) == x % 0x100) by {
            lemma_lane_of_div(x);
        }
        vstd::arithmetic::div_mod::lemma_div_basics_2(x as int);
    } else if lane == 1 {
        assert(lane_of(x, 1) == (x / 0x100) % 0x100) by {
            lemma_lane_of_div(x);
        }
    } else if lane == 2 {
        assert(lane_of(x, 2) == (x / 0x1_0000) % 0x100) by {
            lemma_lane_of_div(x);
        }
    } else if lane == 3 {
        assert(lane_of(x, 3) == (x / 0x100_0000) % 0x100) by {
            lemma_lane_of_div(x);
        }
    } else if lane == 4 {
        assert(lane_of(x, 4) == (x / 0x1_0000_0000) % 0x100) by {
            lemma_lane_of_div(x);
        }
    } else if lane == 5 {
        assert(lane_of(x, 5) == (x / 0x100_0000_0000) % 0x100) by {
            lemma_lane_of_div(x);
        }
    } else if lane == 6 {
        assert(lane_of(x, 6) == (x / 0x1_0000_0000_0000) % 0x100) by {
            lemma_lane_of_div(x);
        }
    } else {
        assert(lane == 7);
        assert(lane_of(x, 7) == (x / 0x100_0000_0000_0000) % 0x100) by {
            lemma_lane_of_div(x);
        }
    }
}

/// Adding `v` scaled into lane `p` of an entry whose higher lanes are still
/// empty fills lane `p` with `v` and leaves every lower lane unchanged.
proof fn lemma_pack_lane(x: u64, v: u64, p: nat, lane: int)
    requires
        p <= 7,
        x < pow256(p),
        v < 256,
        0 <= lane <= p,
    ensures
        x + pow256(p) * v < pow256((p + 1) as nat),
        pow256((p + 1) as nat) <= 0x1_0000_0000_0000_0000,
        lane < p ==> lane_of((x + pow256(p) * v) as u64, lane) == lane_of(x, lane),
        lane == p ==> lane_of((x + pow256(p) * v) as u64, lane) == v,
{
    lemma_pow256_le_all(p);
    lemma_pow256_le_all((p + 1) as nat);
    assert(pow256((p + 1) as nat) == 256 * pow256(p));
    assert(x + pow256(p) * v < 256 * pow256(p)) by (nonlinear_arith)
        requires
            0 <= x < pow256(p),
            0 <= v < 256,
    ;
    let total = (x + pow256(p) * v) as u64;
    assert(total as int == x + pow256(p) * v);
    lemma_lane_of_is_div(total, lane);
    lemma_lane_of_is_div(x, lane);
    let d = pow256(lane as nat) as int;
    let q = pow256((p - lane) as nat) as int;
    lemma_pow256_le_all(lane as nat);
    lemma_pow256_le_all((p - lane) as nat);
    lemma_pow256_mul(lane as nat, (p - lane) as nat);
    assert(pow256(p) as int == d * q);
    assert(pow256(p) * v == (q * v) * d) by (nonlinear_arith)
        requires
            pow256(p) as int == d * q,
    ;
    vstd::arithmetic::div_mod::lemma_hoist_over_denominator(x as int, q * v, pow256(lane as nat));
    assert((total as int) / d == (x as int) / d + q * v);
    if lane < p {
        let qq = pow256((p - lane - 1) as nat) as int;
        assert(pow256((p - lane) as nat) == 256 * pow256((p - lane - 1) as nat));
        assert(q * v == 256 * (qq * v)) by (nonlinear_arith)
            requires
                q == 256 * qq,
        ;
        vstd::arithmetic::div_mod::lemma_mod_multiples_vanish(qq * v, (x as int) / d, 256);
    } else {
        assert(q == 1);
        assert(q * v == v) by (nonlinear_arith)
            requires
                q == 1,
        ;
        vstd::arithmetic::div_mod::lemma_basic_div((x as int), d);
        assert((x as int) / d == 0);
        vstd::arithmetic::div_mod::lemma_small_mod(v as nat, 256);
    }
}

proof fn lemma_mask_bound(x: u64, shift: u64)
    by (bit_vector)
    ensures
        (x >> shift) & 0xff < 256,
{
}

/// Every lane's packing is onto: an injective map from the 256 byte values
/// into `0..=255` hits each value, so each lane holds a full permutation.
pub proof fn lemma_lane_onto(fwd: Seq<u64>, lane: int, value: u64)
    requires
        transition_lanes_wf(fwd),
        0 <= lane < 8,
        value < 256,
    ensures
        exists|b: int| 0 <= b < 256 && lane_of(#[trigger] fwd[b], lane) == value,
{
    broadcast use vstd::seq_lib::seq_to_set_is_finite;

    let si = Seq::<int>::new(256, |b: int| lane_of(fwd[b], lane) as int);
    assert(si.no_duplicates()) by {
        assert forall|k1: int, k2: int|
            0 <= k1 < si.len() && 0 <= k2 < si.len() && k1 != k2 implies si[k1] != si[k2] by {
            assert(lane_of(fwd[k1], lane) != lane_of(fwd[k2], lane));
        }
    }
    si.unique_seq_to_set();
    let range = vstd::set_lib::set_int_range(0, 256);
    vstd::set_lib::lemma_int_range(0, 256);
    assert(si.to_set().subset_of(range)) by {
        assert forall|x: int| si.to_set().contains(x) implies range.contains(x) by {
            let k = choose|k: int| 0 <= k < si.len() && si[k] == x;
            lemma_mask_bound(fwd[k], (8 * lane) as u64);
        }
    }
    vstd::set_lib::lemma_subset_equality(si.to_set(), range);
    assert(range.contains(value as int));
    assert(si.to_set().contains(value as int));
    assert(si.contains(value as int));
    let b = choose|b: int| 0 <= b < si.len() && si[b] == value as int;
    assert(lane_of(fwd[b], lane) == value);
}

/// The untouched sampling pool at the start of a pass: every byte value in
/// order.
pub open spec fn spec_identity_pool() -> Seq<u64> {
    Seq::new(256, |k: int| k as u64)
}

/// One sampler step of pass `pass`: the `j`-th stream draw of the pass
/// selects a pool entry, which is added into the current lane of entry
/// `j`; the first pass also records the inverse, and the pool shrinks by a
/// swap from its tail.
pub open spec fn spec_table_step(
    seed: u64,
    pass: int,
    j: int,
    fwd: Seq<u64>,
    rev: Seq<u64>,
    pool: Seq<u64>,
    m: u64,
) -> (Seq<u64>, Seq<u64>, Seq<u64>) {
    let r = (crate::prng::pcg64_draw(seed, pass * 256 + j) % ((256 - j) as u64)) as int;
    let drawn = pool[r];
    let fwd2 = fwd.update(j, ((fwd[j] + (m as int) * drawn) % 0x1_0000_0000_0000_0000) as u64);
    let rev2 = if m == 1 {
        rev.update(drawn as int, j as u64)
    } else {
        rev
    };
    let pool2 = pool.update(r, pool[255 - j]);
    (fwd2, rev2, pool2)
}

/// The sampler state after the first `j` steps of pass `pass`.
pub open spec fn spec_pass_at(
    seed: u64,
    pass: int,
    j: int,
    fwd0: Seq<u64>,
    rev0: Seq<u64>,
    m: u64,
) -> (Seq<u64>, Seq<u64>, Seq<u64>)
    decreases j,
{
    if j <= 0 {
        (fwd0, rev0, spec_identity_pool())
    } else {
        let prev = spec_pass_at(seed, pass, j - 1, fwd0, rev0, m);
        spec_table_step(seed, pass, j - 1, prev.0, prev.1, prev.2, m)
    }
}

/// The tables and the lane multiplier after `pass` complete passes.
pub open spec fn spec_tables_at(seed: u64, pass: int) -> (Seq<u64>, Seq<u64>, u64)
    decreases pass,
{
    if pass <= 0 {
        (Seq::new(256, |k: int| 0u64), Seq::new(256, |k: int| 0u64), 1u64)
    } else {
        let prev = spec_tables_at(seed, pass - 1);
        let done = spec_pass_at(seed, pass - 1, 256, prev.0, prev.1, prev.2);
        (done.0, done.1, (((prev.2 as int) * 256) % 0x1_0000_0000_0000_0000) as u64)
    }
}

/// The transition tables as a pure function of the seed: equal seeds give
/// identical tables on every platform, through the named draw stream.
pub open spec fn spec_transition_tables(seed: u64) -> (Seq<u64>, Seq<u64>) {
    let state = spec_tables_at(seed, 8);
    (state.0, state.1)
}

/// Builds the forward and reverse transition tables from a 64-bit seed.
///
/// Each of eight passes draws a fresh random permutation of `0..=255` with a
/// Fisher-Yates-style sampler and packs it into one 8-bit lane of `FWD`; the
/// reverse table records the inverse of the first pass only. The result is
/// well-formed for every possible stream of random draws, and, the draw
/// stream being a named function of the seed, the tables themselves are a
/// function of the seed: equal seeds give identical tables.
#[verifier::loop_isolation(false)]
#[verifier::rlimit(100)]
pub fn generate_transition_function_table(seed: u64) -> (tables: (Vec<u64>, Vec<u64>))
    ensures
        transition_tables_wf(tables.0@, tables.1@),
        transition_lanes_wf(tables.0@),
        tables.0@ == spec_transition_tables(seed).0,
        tables.1@ == spec_transition_tables(seed).1,
{
    let mut rng = crate::prng::SeededRng::new(seed);

    let mut m: u64 = 1;
    let mut transition_function_table: Vec<u64> = vec![0u64; STATE_COUNT];
    let mut reverse_table: Vec<u64> = vec![0u64; STATE_COUNT];

    let mut temp_values: Vec<u64> = vec![0u64; STATE_COUNT];
    proof {
        assert(pow256(0) == 1);
        assert(transition_function_table@ =~= spec_tables_at(seed, 0).0);
        assert(reverse_table@ =~= spec_tables_at(seed, 0).1);
    }
    for pass in 0..8usize
        invariant
            transition_function_table@.len() == 256,
            reverse_table@.len() == 256,
            temp_values@.len() == 256,
            forall|v: int| 0 <= v < 256 ==> #[trigger] reverse_table@[v] < 256,
            pass < 8 ==> m as nat == pow256(pass as nat),
            pass == 0 ==> forall|k: int|
                0 <= k < 256 ==> #[trigger] transition_function_table@[k] == 0,
            pass >= 1 ==> transition_tables_wf(transition_function_table@, reverse_table@),
            forall|k: int|
                0 <= k < 256 ==> #[trigger] transition_function_table@[k] < pow256(pass as nat),
            forall|lane: int, b1: int, b2: int|
                0 <= lane < pass && 0 <= b1 < 256 && 0 <= b2 < 256 && b1 != b2 ==> #[trigger] lane_of(
                    transition_function_table@[b1],
                    lane,
                ) != #[trigger] lane_of(transition_function_table@[b2], lane),
            rng.seed_spec() == seed,
            rng.draws_spec() == pass * 256,
            transition_function_table@ == spec_tables_at(seed, pass as int).0,
            reverse_table@ == spec_tables_at(seed, pass as int).1,
            m == spec_tables_at(seed, pass as int).2,
    {
        proof {
            lemma_pow256_bounds(pass as nat);
        }
        let ghost pass_fwd0 = transition_function_table@;
        let ghost pass_rev0 = reverse_table@;
        let ghost pass_m = m;
        for j in 0..STATE_COUNT
            invariant
                temp_values@.len() == 256,
                forall|k: int| 0 <= k < j ==> #[trigger] temp_values@[k] == k,
        {
            temp_values[j] = j as u64;
        }
        proof {
            assert(temp_values@ =~= spec_identity_pool());
        }

        let ghost mut lane_values: Seq<u64> = Seq::empty();
        for j in 0..STATE_COUNT
            invariant
                transition_function_table@.len() == 256,
                reverse_table@.len() == 256,
                temp_values@.len() == 256,
                forall|a: int| 0 <= a < 256 ==> #[trigger] temp_values@[a] < 256,
                forall|v: int| 0 <= v < 256 ==> #[trigger] reverse_table@[v] < 256,
                lane_values.len() == j,
                forall|k: int| 0 <= k < j ==> #[trigger] lane_values[k] < 256,
                forall|k1: int, k2: int|
                    0 <= k1 < k2 < j ==> #[trigger] lane_values[k1] != #[trigger] lane_values[k2],
                forall|a: int, k: int|
                    0 <= a < 256 - j && 0 <= k < j ==> #[trigger] temp_values@[a]
                        != #[trigger] lane_values[k],
                forall|a1: int, a2: int|
                    0 <= a1 < a2 < 256 - j ==> #[trigger] temp_values@[a1]
                        != #[trigger] temp_values@[a2],
                forall|k: int|
                    0 <= k < j ==> #[trigger] transition_function_table@[k] < pow256(
                        (pass + 1) as nat,
                    ) && lane_of(transition_function_table@[k], pass as int) == lane_values[k],
                forall|k: int|
                    j <= k < 256 ==> #[trigger] transition_function_table@[k] < pow256(
                        pass as nat,
                    ),
                forall|lane: int, b1: int, b2: int|
                    0 <= lane < pass && 0 <= b1 < 256 && 0 <= b2 < 256 && b1 != b2
                        ==> #[trigger] lane_of(transition_function_table@[b1], lane)
                        != #[trigger] lane_of(transition_function_table@[b2], lane),
                rng.seed_spec() == seed,
                rng.draws_spec() == pass * 256 + j,
                transition_function_table@ == spec_pass_at(
                    seed,
                    pass as int,
                    j as int,
                    pass_fwd0,
                    pass_rev0,
                    pass_m,
                ).0,
                reverse_table@ == spec_pass_at(
                    seed,
                    pass as int,
                    j as int,
                    pass_fwd0,
                    pass_rev0,
                    pass_m,
                ).1,
                temp_values@ == spec_pass_at(
                    seed,
                    pass as int,
                    j as int,
                    pass_fwd0,
                    pass_rev0,
                    pass_m,
                ).2,
                pass == 0 ==> {
                    &&& forall|k: int|
                        0 <= k < j ==> #[trigger] transition_function_table@[k] < 256
                    &&& forall|k: int|
                        j <= k < 256 ==> #[trigger] transition_function_table@[k] == 0
                    &&& forall|k1: int, k2: int|
                        0 <= k1 < k2 < j ==> #[trigger] transition_function_table@[k1]
                            != #[trigger] transition_function_table@[k2]
                    &&& forall|k: int|
                        0 <= k < j ==> reverse_table@[#[trigger] transition_function_table@[k] as int]
                            == k
                    &&& forall|a: int, k: int|
                        0 <= a < 256 - j && 0 <= k < j ==> #[trigger] temp_values@[a]
                            != #[trigger] transition_function_table@[k]
                },
                pass >= 1 ==> transition_tables_wf(transition_function_table@, reverse_table@),
        {
            let raw = rng.next_u64();
            let random_value: usize = (raw % ((STATE_COUNT - j) as u64)) as usize;
            let drawn: u64 = temp_values[random_value];
            proof {
                lemma_mul_upper_bound(m as int, 0x100_0000_0000_0000, drawn as int, 255);
            }
            let contribution: u64 = m * drawn;
            let ghost old_table = transition_function_table@;
            let ghost old_rev = reverse_table@;
            let ghost old_temp = temp_values@;
            let ghost old_lane = lane_values;
            transition_function_table[j] = transition_function_table[j].wrapping_add(contribution);
            if m == 1 {
                reverse_table[drawn as usize] = j as u64;
            }
            temp_values[random_value] = temp_values[STATE_COUNT - j - 1];

            proof {
                let table = transition_function_table@;
                let temp = temp_values@;
                let r = random_value as int;
                let jj = j as int;
                // the step is exactly one spec sampler step
                assert(raw == crate::prng::pcg64_draw(seed, pass * 256 + jj));
                assert(random_value as int == (raw % ((256 - jj) as u64)) as int);
                // lane bookkeeping: the draw fills lane `pass` of entry j and
                // leaves every completed lane of every entry in place
                lemma_pow256_le_all(pass as nat);
                assert(contribution as int == pow256(pass as nat) * drawn);
                lemma_pack_lane(old_table[jj], drawn, pass as nat, pass as int);
                assert(table[jj] as int == old_table[jj] + contribution);
                assert(table[jj] < pow256((pass + 1) as nat));
                assert(lane_of(table[jj], pass as int) == drawn);
                assert forall|lane: int| 0 <= lane < pass implies lane_of(table[jj], lane)
                    == lane_of(old_table[jj], lane) by {
                    lemma_pack_lane(old_table[jj], drawn, pass as nat, lane);
                }
                lane_values = old_lane.push(drawn);
                assert forall|k1: int, k2: int| 0 <= k1 < k2 < jj + 1 implies
                    #[trigger] lane_values[k1] != #[trigger] lane_values[k2] by {
                    if k2 == jj {
                        assert(old_temp[r] != old_lane[k1]);
                    }
                }
                assert forall|a: int, k: int| 0 <= a < 256 - (jj + 1) && 0 <= k < jj + 1 implies
                    #[trigger] temp[a] != #[trigger] lane_values[k] by {
                    let src = if a == r { 255 - jj } else { a };
                    assert(temp[a] == old_temp[src]);
                    if k == jj {
                        assert(src != r);
                        assert(old_temp[src] != old_temp[r]);
                    } else {
                        assert(old_temp[src] != old_lane[k]);
                    }
                }
                assert forall|a1: int, a2: int| 0 <= a1 < a2 < 256 - (jj + 1) implies
                    #[trigger] temp[a1] != #[trigger] temp[a2] by {
                    let s1 = if a1 == r { 255 - jj } else { a1 };
                    let s2 = if a2 == r { 255 - jj } else { a2 };
                    assert(s1 != s2);
                    assert(old_temp[s1] != old_temp[s2]);
                }
                assert forall|lane: int, b1: int, b2: int|
                    0 <= lane < pass && 0 <= b1 < 256 && 0 <= b2 < 256 && b1 != b2 implies
                    #[trigger] lane_of(table[b1], lane) != #[trigger] lane_of(table[b2], lane) by {
                    if b1 != jj {
                        assert(table[b1] == old_table[b1]);
                    }
                    if b2 != jj {
                        assert(table[b2] == old_table[b2]);
                    }
                    assert(lane_of(table[jj], lane) == lane_of(old_table[jj], lane));
                }
                assert forall|k: int| 0 <= k < jj + 1 implies #[trigger] table[k] < pow256(
                    (pass + 1) as nat,
                ) && lane_of(table[k], pass as int) == lane_values[k] by {
                    if k < jj {
                        assert(table[k] == old_table[k]);
                    }
                }
                vstd::arithmetic::div_mod::lemma_small_mod(
                    (old_table[jj] + contribution) as nat,
                    0x1_0000_0000_0000_0000,
                );
                assert(table == old_table.update(
                    jj,
                    ((old_table[jj] + (m as int) * drawn) % 0x1_0000_0000_0000_0000) as u64,
                ));
                assert((table, reverse_table@, temp) == spec_table_step(
                    seed,
                    pass as int,
                    jj,
                    old_table,
                    old_rev,
                    old_temp,
                    pass_m,
                ));
                assert(spec_pass_at(seed, pass as int, jj + 1, pass_fwd0, pass_rev0, pass_m)
                    == (table, reverse_table@, temp));
                if pass == 0 {
                    assert(m == 1);
                    assert(old_table[jj] == 0);
                    assert(table[jj] == drawn);
                    // The fresh region is the old region minus the drawn slot,
                    // with the old tail element moved into that slot.
                    assert forall|a: int| 0 <= a < 256 - (jj + 1) implies #[trigger] temp[a]
                        == old_temp[if a == r { 255 - jj } else { a }] by {}
                    // drawn values stay pairwise distinct and new
                    assert forall|k1: int, k2: int| 0 <= k1 < k2 < jj + 1 implies
                        #[trigger] table[k1] != #[trigger] table[k2] by {
                        if k2 == jj {
                            assert(old_temp[r] != old_table[k1]);
                        }
                    }
                    assert forall|k: int| 0 <= k < jj + 1 implies reverse_table@[#[trigger] table[k] as int]
                        == k by {
                        if k < jj {
                            assert(old_temp[r] != old_table[k]);
                        }
                    }
                    assert forall|a: int, k: int| 0 <= a < 256 - (jj + 1) && 0 <= k < jj + 1 implies
                        #[trigger] temp[a] != #[trigger] table[k] by {
                        let src = if a == r { 255 - jj } else { a };
                        assert(temp[a] == old_temp[src]);
                        if k == jj {
                            assert(src != r);
                            assert(old_temp[src] != old_temp[r]);
                        } else {
                            assert(old_temp[src] != old_table[k]);
                        }
                    }
                    assert forall|a1: int, a2: int| 0 <= a1 < a2 < 256 - (jj + 1) implies
                        #[trigger] temp[a1] != #[trigger] temp[a2] by {
                        let s1 = if a1 == r { 255 - jj } else { a1 };
                        let s2 = if a2 == r { 255 - jj } else { a2 };
                        assert(s1 != s2);
                        assert(old_temp[s1] != old_temp[s2]);
                    }
                } else {
                    // Later passes only add multiples of 256 to entries, so the
                    // low lane and the reverse table are untouched.
                    assert(pass >= 1);
                    lemma_pow256_bounds(pass as nat);
                    assert(m as int % 256 == 0);
                    lemma_mul_keeps_multiple_of_256(m as int, drawn as int);
                    assert(contribution as int == m as int * drawn as int);
                    lemma_wrapping_add_keeps_low_byte(old_table[jj], contribution);
                    assert(low_byte(table[jj]) == low_byte(old_table[jj]));
                    assert forall|b: int| 0 <= b < 256 implies reverse_table@[low_byte(
                        #[trigger] table[b],
                    ) as int] == b by {
                        if b != jj {
                            assert(table[b] == old_table[b]);
                        }
                    }
                    assert forall|v: int| 0 <= v < 256 implies low_byte(
                        table[#[trigger] reverse_table@[v] as int],
                    ) == v by {
                        if reverse_table@[v] != jj {
                            assert(table[reverse_table@[v] as int]
                                == old_table[reverse_table@[v] as int]);
                        }
                    }
                }
            }
        }

        proof {
            if pass == 0 {
                let table = transition_function_table@;
                assert forall|b: int| 0 <= b < 256 implies reverse_table@[low_byte(
                    #[trigger] table[b],
                ) as int] == b by {
                    lemma_low_byte_small(table[b]);
                }
                // 256 pairwise-distinct values below 256 hit every byte value,
                // so the first pass's permutation is onto.
                broadcast use vstd::seq_lib::seq_to_set_is_finite;

                let si = Seq::<int>::new(256, |k: int| table[k] as int);
                assert(si.no_duplicates()) by {
                    assert forall|k1: int, k2: int|
                        0 <= k1 < si.len() && 0 <= k2 < si.len() && k1 != k2 implies si[k1]
                        != si[k2] by {
                        if k1 < k2 {
                            assert(table[k1] != table[k2]);
                        } else {
                            assert(table[k2] != table[k1]);
                        }
                    }
                }
                si.unique_seq_to_set();
                let range = vstd::set_lib::set_int_range(0, 256);
                vstd::set_lib::lemma_int_range(0, 256);
                assert(si.to_set().subset_of(range)) by {
                    assert forall|x: int| si.to_set().contains(x) implies range.contains(x) by {
                        let k = choose|k: int| 0 <= k < si.len() && si[k] == x;
                        assert(table[k] < 256);
                    }
                }
                vstd::set_lib::lemma_subset_equality(si.to_set(), range);
                assert forall|v: int| 0 <= v < 256 implies low_byte(
                    table[#[trigger] reverse_table@[v] as int],
                ) == v by {
                    assert(range.contains(v));
                    assert(si.to_set().contains(v));
                    assert(si.contains(v));
                    let k = choose|k: int| 0 <= k < si.len() && si[k] == v;
                    assert(table[k] == v);
                    lemma_low_byte_small(table[k]);
                    assert(reverse_table@[v] == k);
                }
                assert(transition_tables_wf(transition_function_table@, reverse_table@));
            }
            let table = transition_function_table@;
            assert forall|lane: int, b1: int, b2: int|
                0 <= lane < pass + 1 && 0 <= b1 < 256 && 0 <= b2 < 256 && b1 != b2 implies
                #[trigger] lane_of(table[b1], lane) != #[trigger] lane_of(table[b2], lane) by {
                if lane == pass {
                    assert(lane_of(table[b1], lane) == lane_values[b1]);
                    assert(lane_of(table[b2], lane) == lane_values[b2]);
                    if b1 < b2 {
                        assert(lane_values[b1] != lane_values[b2]);
                    } else {
                        assert(lane_values[b2] != lane_values[b1]);
                    }
                }
            }
        }
        let ghost m_before = m;
        m = m.wrapping_mul(STATE_COUNT as u64);
        proof {
            assert(transition_function_table@ == spec_tables_at(seed, pass as int + 1).0);
            assert(reverse_table@ == spec_tables_at(seed, pass as int + 1).1);
            assert(m == spec_tables_at(seed, pass as int + 1).2);
            if pass + 1 < 8 {
                lemma_pow256_le_specific(pass as nat);
                assert(pow256((pass + 1) as nat) == 256 * pow256(pass as nat));
                assert(256 * (m_before as nat) < 0x1_0000_0000_0000_0000);
                vstd::arithmetic::div_mod::lemma_small_mod(
                    ((m_before as nat) * 256) as nat,
                    0x1_0000_0000_0000_0000,
                );
                assert(m as nat == pow256((pass + 1) as nat));
            }
        }
    }
    (transition_function_table, reverse_table)
}

/// The state rotated right by one 8-bit lane.
pub open spec fn spec_rotate_right_8(x: u64) -> u64 {
    (x >> 8) | (x << 56)
}

/// Emitting `byte`: XOR its table entry into the state; the low lane is the
/// emitted code byte and the state advances by one lane rotation.
pub open spec fn spec_encode_byte(fwd: Seq<u64>, byte: u8, state: u64) -> (u8, u64) {
    let t = state ^ fwd[byte as int];
    (low_byte(t) as u8, spec_rotate_right_8(t))
}

/// Decoding inverts the low lane through the reverse table, then replays the
/// same state update as encoding.
pub open spec fn spec_decode_byte(fwd: Seq<u64>, rev: Seq<u64>, byte: u8, state: u64) -> (u8, u64) {
    let index = low_byte((byte as u64) ^ state);
    let plain = rev[index as int] as u8;
    let t = state ^ fwd[plain as int];
    (plain, spec_rotate_right_8(t))
}

/// Decoding a just-emitted byte under the same pre-state recovers the plain
/// byte and reaches the same post-state.
pub proof fn lemma_byte_round_trip(fwd: Seq<u64>, rev: Seq<u64>, byte: u8, state: u64)
    requires
        transition_tables_wf(fwd, rev),
    ensures
        spec_decode_byte(fwd, rev, spec_encode_byte(fwd, byte, state).0, state) == (
        byte,
        spec_encode_byte(fwd, byte, state).1,
        ),
{
    let f = fwd[byte as int];
    let code = spec_encode_byte(fwd, byte, state).0;
    assert(((((state ^ f) & 0xff) as u8) as u64 ^ state) & 0xff == f & 0xff) by (bit_vector);
    assert(low_byte((code as u64) ^ state) == low_byte(f));
    assert(rev[low_byte(f) as int] == byte);
}

/// Re-encoding a decoded byte under the same pre-state re-emits the code
/// byte: per byte the automaton is a bijection.
pub proof fn lemma_decode_then_encode(fwd: Seq<u64>, rev: Seq<u64>, code: u8, state: u64)
    requires
        transition_tables_wf(fwd, rev),
    ensures
        spec_encode_byte(fwd, spec_decode_byte(fwd, rev, code, state).0, state) == (
        code,
        spec_decode_byte(fwd, rev, code, state).1,
        ),
{
    let index = low_byte((code as u64) ^ state);
    assert(low_byte((code as u64) ^ state) < 256) by (bit_vector);
    let plain = rev[index as int] as u8;
    assert(rev[index as int] < 256);
    assert(plain as int == rev[index as int]);
    let fp = fwd[plain as int];
    assert(low_byte(fp) == index);
    assert((fp & 0xff == ((code as u64) ^ state) & 0xff) ==> ((((state ^ fp) & 0xff) as u8) == code))
        by (bit_vector);
}

/// Encoding a whole plain-byte sequence, one codec step per byte, starting
/// from `state`; yields the emitted bytes and the final state.
pub open spec fn spec_encode_stream(fwd: Seq<u64>, plains: Seq<u8>, state: u64) -> (Seq<u8>, u64)
    decreases plains.len(),
{
    if plains.len() == 0 {
        (Seq::empty(), state)
    } else {
        let prev = spec_encode_stream(fwd, plains.drop_last(), state);
        let step = spec_encode_byte(fwd, plains.last(), prev.1);
        (prev.0.push(step.0), step.1)
    }
}

/// Decoding a whole code-byte sequence from `state`.
pub open spec fn spec_decode_stream(fwd: Seq<u64>, rev: Seq<u64>, codes: Seq<u8>, state: u64) -> (
    Seq<u8>,
    u64,
)
    decreases codes.len(),
{
    if codes.len() == 0 {
        (Seq::empty(), state)
    } else {
        let prev = spec_decode_stream(fwd, rev, codes.drop_last(), state);
        let step = spec_decode_byte(fwd, rev, codes.last(), prev.1);
        (prev.0.push(step.0), step.1)
    }
}

pub proof fn lemma_decode_stream_len(fwd: Seq<u64>, rev: Seq<u64>, codes: Seq<u8>, state: u64)
    ensures
        spec_decode_stream(fwd, rev, codes, state).0.len() == codes.len(),
    decreases codes.len(),
{
    if codes.len() > 0 {
        lemma_decode_stream_len(fwd, rev, codes.drop_last(), state);
    }
}

/// Decoding the encoding of any plain stream from the same start state
/// recovers the stream exactly and ends in the same state.
pub proof fn lemma_stream_round_trip(fwd: Seq<u64>, rev: Seq<u64>, plains: Seq<u8>, state: u64)
    requires
        transition_tables_wf(fwd, rev),
    ensures
        spec_decode_stream(fwd, rev, spec_encode_stream(fwd, plains, state).0, state) == (
        plains,
        spec_encode_stream(fwd, plains, state).1,
        ),
    decreases plains.len(),
{
    let enc = spec_encode_stream(fwd, plains, state);
    if plains.len() == 0 {
        assert(plains =~= Seq::<u8>::empty());
    } else {
        let front = plains.drop_last();
        lemma_stream_round_trip(fwd, rev, front, state);
        let enc_front = spec_encode_stream(fwd, front, state);
        lemma_byte_round_trip(fwd, rev, plains.last(), enc_front.1);
        assert(enc.0.drop_last() =~= enc_front.0);
        assert(enc.0.last() == spec_encode_byte(fwd, plains.last(), enc_front.1).0);
        let dec = spec_decode_stream(fwd, rev, enc.0, state);
        assert(dec.0 =~= plains);
    }
}

/// If a code stream decodes to some plain stream, it is the encoding of that
/// stream: streams, too, are in bijection.
pub proof fn lemma_stream_decode_then_encode(fwd: Seq<u64>, rev: Seq<u64>, codes: Seq<u8>, state: u64)
    requires
        transition_tables_wf(fwd, rev),
    ensures
        spec_encode_stream(fwd, spec_decode_stream(fwd, rev, codes, state).0, state) == (
        codes,
        spec_decode_stream(fwd, rev, codes, state).1,
        ),
    decreases codes.len(),
{
    let dec = spec_decode_stream(fwd, rev, codes, state);
    if codes.len() == 0 {
        assert(codes =~= Seq::<u8>::empty());
    } else {
        let front = codes.drop_last();
        lemma_stream_decode_then_encode(fwd, rev, front, state);
        let dec_front = spec_decode_stream(fwd, rev, front, state);
        lemma_decode_then_encode(fwd, rev, codes.last(), dec_front.1);
        lemma_decode_stream_len(fwd, rev, front, state);
        assert(dec.0.drop_last() =~= dec_front.0);
        assert(dec.0.last() == spec_decode_byte(fwd, rev, codes.last(), dec_front.1).0);
        let enc = spec_encode_stream(fwd, dec.0, state);
        assert(enc.0 =~= codes);
    }
}

/// Bit `i` of a byte, LSB first.
pub open spec fn nth_bit(b: u8, i: u8) -> bool {
    (b >> i) & 1 == 1
}

/// Bit `g` of a byte sequence read LSB-first, least-significant byte first;
/// bits past the end read as zero.
pub open spec fn stream_bit(bytes: Seq<u8>, g: int) -> bool {
    &&& 0 <= g
    &&& g / 8 < bytes.len()
    &&& nth_bit(bytes[g / 8], (g % 8) as u8)
}

/// The first `j` message bits of step `step`, packed from bit position 7
/// downward; positions below `8 - j` are still zero.
pub open spec fn template_prefix(msg: Seq<u8>, freedom_bit_count: u8, step: int, j: int) -> u8
    decreases j,
{
    if j <= 0 {
        0
    } else {
        let prev = template_prefix(msg, freedom_bit_count, step, j - 1);
        if stream_bit(msg, step * (8 - freedom_bit_count as int) + (j - 1)) {
            prev | (1u8 << ((8 - j) as u8))
        } else {
            prev
        }
    }
}

/// The byte template of step `step`: the next `8 - F` message bits in the
/// high positions (first bit read at position 7), the low `F` bits zero.
pub open spec fn spec_template(msg: Seq<u8>, freedom_bit_count: u8, step: int) -> u8 {
    template_prefix(msg, freedom_bit_count, step, 8 - freedom_bit_count as int)
}

pub(crate) proof fn lemma_zero_bit(i: u8)
    by (bit_vector)
    ensures
        !nth_bit(0u8, i),
{
}

pub(crate) proof fn lemma_or_bit(b: u8, i: u8, i2: u8)
    by (bit_vector)
    requires
        i < 8,
        i2 < 8,
    ensures
        nth_bit(b | (1u8 << i), i),
        i2 != i ==> nth_bit(b | (1u8 << i), i2) == nth_bit(b, i2),
{
}

/// Which bit stands where in a template prefix.
proof fn lemma_template_prefix_bits(msg: Seq<u8>, freedom_bit_count: u8, step: int, j: int)
    requires
        freedom_bit_count <= 7,
        0 <= j <= 8 - freedom_bit_count,
    ensures
        forall|i: u8|
            8 - j <= i < 8 ==> nth_bit(
                template_prefix(msg, freedom_bit_count, step, j),
                i,
            ) == stream_bit(msg, step * (8 - freedom_bit_count as int) + (7 - i)),
        forall|i: u8|
            i < 8 - j ==> !nth_bit(template_prefix(msg, freedom_bit_count, step, j), i),
    decreases j,
{
    if j == 0 {
        assert forall|i: u8| i < 8 implies !nth_bit(
            template_prefix(msg, freedom_bit_count, step, 0),
            i,
        ) by {
            lemma_zero_bit(i);
        }
    } else {
        lemma_template_prefix_bits(msg, freedom_bit_count, step, j - 1);
        let prev = template_prefix(msg, freedom_bit_count, step, j - 1);
        let cur = template_prefix(msg, freedom_bit_count, step, j);
        let pos = (8 - j) as u8;
        if stream_bit(msg, step * (8 - freedom_bit_count as int) + (j - 1)) {
            assert forall|i2: u8| i2 < 8 implies (nth_bit(cur, i2) == if i2 == pos {
                true
            } else {
                nth_bit(prev, i2)
            }) by {
                lemma_or_bit(prev, pos, i2);
            }
        }
        assert forall|i: u8| 8 - j <= i < 8 implies nth_bit(cur, i) == stream_bit(
            msg,
            step * (8 - freedom_bit_count as int) + (7 - i),
        ) by {
            if i == pos {
                assert(7 - i == j - 1);
            }
        }
    }
}

/// The template's high bits are the message bits of its step; its low
/// `F` bits are zero.
pub proof fn lemma_template_bits(msg: Seq<u8>, freedom_bit_count: u8, step: int)
    requires
        freedom_bit_count <= 7,
    ensures
        forall|i: u8|
            freedom_bit_count <= i < 8 ==> nth_bit(
                spec_template(msg, freedom_bit_count, step),
                i,
            ) == stream_bit(msg, step * (8 - freedom_bit_count as int) + (7 - i)),
        forall|i: u8|
            i < freedom_bit_count ==> !nth_bit(spec_template(msg, freedom_bit_count, step), i),
{
    lemma_template_prefix_bits(msg, freedom_bit_count, step, 8 - freedom_bit_count as int);
}

proof fn lemma_or_keeps_low_mask(b: u8, pos: u8, f: u8)
    by (bit_vector)
    requires
        f <= 7,
        f <= pos < 8,
        b & (((1u8 << f) - 1) as u8) == 0,
    ensures
        (b | (1u8 << pos)) & (((1u8 << f) - 1) as u8) == 0,
{
}

proof fn lemma_template_prefix_low_mask(msg: Seq<u8>, freedom_bit_count: u8, step: int, j: int)
    requires
        freedom_bit_count <= 7,
        0 <= j <= 8 - freedom_bit_count,
    ensures
        template_prefix(msg, freedom_bit_count, step, j) & (((1u8 << freedom_bit_count) - 1) as u8) == 0,
    decreases j,
{
    if j == 0 {
        assert(0u8 & (((1u8 << freedom_bit_count) - 1) as u8) == 0) by (bit_vector);
    } else {
        lemma_template_prefix_low_mask(msg, freedom_bit_count, step, j - 1);
        let prev = template_prefix(msg, freedom_bit_count, step, j - 1);
        if stream_bit(msg, step * (8 - freedom_bit_count as int) + (j - 1)) {
            lemma_or_keeps_low_mask(prev, (8 - j) as u8, freedom_bit_count);
        }
    }
}

/// The low `F` bits of every template are zero: they are left to the search.
pub proof fn lemma_template_low_mask(msg: Seq<u8>, freedom_bit_count: u8, step: int)
    requires
        freedom_bit_count <= 7,
    ensures
        spec_template(msg, freedom_bit_count, step) & (((1u8 << freedom_bit_count) - 1) as u8) == 0,
{
    lemma_template_prefix_low_mask(msg, freedom_bit_count, step, 8 - freedom_bit_count as int);
}

/// OR-ing a freedom value below `2^F` into a template with zero low bits
/// is plain addition and leaves the high bits untouched.
pub proof fn lemma_freedom_merge(t: u8, fv: u8, f: u8)
    by (bit_vector)
    requires
        f <= 7,
        fv < (1u8 << f),
        t & (((1u8 << f) - 1) as u8) == 0,
    ensures
        t + fv < 256,
        t + fv == (t | fv),
        ((t | fv) >> f) == t >> f,
{
}

/// Two bytes with the same high bits above `f` agree on each such bit.
pub proof fn lemma_high_bits_shift(p: u8, t: u8, f: u8, i: u8)
    by (bit_vector)
    requires
        f <= i < 8,
        p >> f == t >> f,
    ensures
        nth_bit(p, i) == nth_bit(t, i),
{
}

/// Packs the next `8 - F` message bits (taken LSB-first from the message)
/// into the high positions of a byte, first bit highest; bits past the end
/// of the message are zero.
#[verifier::loop_isolation(false)]
pub fn build_template(message: &Vec<u8>, freedom_bit_count: u8, step: u64) -> (template: u8)
    requires
        freedom_bit_count <= 7,
        step <= 0x1_0000_0000,
    ensures
        template == spec_template(message@, freedom_bit_count, step as int),
{
    let width: u64 = 8 - freedom_bit_count as u64;
    proof {
        assert(step * width <= 0x8_0000_0000) by (nonlinear_arith)
            requires
                step <= 0x1_0000_0000,
                0 <= width <= 8,
        ;
    }
    let base: u64 = step * width;
    let mut template: u8 = 0;
    for j in 0..width
        invariant
            template == template_prefix(message@, freedom_bit_count, step as int, j as int),
    {
        let g: u64 = base + j;
        let byte_index: u64 = g / 8;
        let bit: bool = if byte_index < message.len() as u64 {
            ((message[byte_index as usize] >> ((g % 8) as u8)) & 1) == 1
        } else {
            false
        };
        proof {
            assert(bit == stream_bit(message@, g as int));
            assert(g as int == step as int * (8 - freedom_bit_count as int) + j as int);
        }
        if bit {
            template = template | (1u8 << ((7 - j) as u8));
        }
    }
    template
}

/// A prefix of the code stream decodes to the same prefix of the plain
/// stream.
pub proof fn lemma_decode_stream_prefix(
    fwd: Seq<u64>,
    rev: Seq<u64>,
    codes: Seq<u8>,
    state: u64,
    n: int,
)
    requires
        0 <= n <= codes.len(),
    ensures
        spec_decode_stream(fwd, rev, codes.take(n), state).0 == spec_decode_stream(
            fwd,
            rev,
            codes,
            state,
        ).0.take(n),
    decreases codes.len(),
{
    lemma_decode_stream_len(fwd, rev, codes, state);
    if n == codes.len() {
        assert(codes.take(n) =~= codes);
        assert(spec_decode_stream(fwd, rev, codes, state).0.take(n) =~= spec_decode_stream(
            fwd,
            rev,
            codes,
            state,
        ).0);
    } else {
        let front = codes.drop_last();
        lemma_decode_stream_prefix(fwd, rev, front, state, n);
        lemma_decode_stream_len(fwd, rev, front, state);
        assert(front.take(n) =~= codes.take(n));
        assert(spec_decode_stream(fwd, rev, codes, state).0.take(n) =~= spec_decode_stream(
            fwd,
            rev,
            front,
            state,
        ).0.take(n));
    }
}

/// How many code bytes of `data` contribute message bits: all of them, up
/// to the encoding capacity; bytes past the capacity are decoded but carry
/// nothing.
pub open spec fn decoded_step_count(data_len: int, encoding_capacity: u64) -> int {
    if data_len <= encoding_capacity {
        data_len
    } else {
        encoding_capacity as int
    }
}

/// What `decode` returns: the high `8 - F` bits of each decoded plain byte,
/// highest position first, packed LSB-first into bytes, zero-padded to the
/// capacity's byte boundary. Data of any length is accepted: a short stream
/// reads as zeros past its end, a long one is cut at the capacity.
pub open spec fn decoded_message_wf(
    fwd: Seq<u64>,
    rev: Seq<u64>,
    data: Seq<u8>,
    encoding_capacity: u64,
    freedom_bit_count: u8,
    message: Seq<u8>,
) -> bool {
    let width = 8 - freedom_bit_count as int;
    let steps = decoded_step_count(data.len() as int, encoding_capacity);
    let plains = spec_decode_stream(fwd, rev, data, 0).0;
    &&& message.len() == (encoding_capacity * width + 7) / 8
    &&& forall|g: int|
        0 <= g < steps * width ==> stream_bit(message, g) == nth_bit(
            plains[g / width],
            (7 - g % width) as u8,
        )
    &&& forall|g: int| steps * width <= g ==> !stream_bit(message, g)
}

pub struct StandardKTEncoder {
    transition_function_table: Vec<u64>,
    reverse_transition_function_table: Vec<u64>,
}

/// The codec interface: byte-level encode and decode against a running
/// state, whole-message encode through the beam search, and whole-stream
/// decode.
pub trait KTEncoder {
    spec fn fwd(&self) -> Seq<u64>;

    spec fn rev(&self) -> Seq<u64>;

    fn encode_byte(&self, byte: u8, state: u64) -> (r: (u8, u64))
        requires
            transition_tables_wf(self.fwd(), self.rev()),
        ensures
            r == spec_encode_byte(self.fwd(), byte, state),
    ;

    fn decode_byte(&self, byte: u8, state: u64) -> (r: (u8, u64))
        requires
            transition_tables_wf(self.fwd(), self.rev()),
        ensures
            r == spec_decode_byte(self.fwd(), self.rev(), byte, state),
    ;

    fn encode(
        &self,
        message: &Vec<u8>,
        zero_bit_weights: &Vec<u64>,
        one_bit_weights: &Vec<u64>,
        encoding_capacity: ByteEncodingCapacity,
        freedom_bit_count: u8,
    ) -> (encoded: Vec<u8>)
        requires
            transition_tables_wf(self.fwd(), self.rev()),
            freedom_bit_count <= 7,
            1 <= encoding_capacity <= kt_search_tree::ENCODING_CAPACITY_MAX,
            zero_bit_weights@.len() == one_bit_weights@.len(),
            zero_bit_weights@.len() >= 8 * encoding_capacity,
            forall|i: int|
                0 <= i < zero_bit_weights@.len() ==> #[trigger] zero_bit_weights@[i]
                    <= kt_search_tree::BIT_WEIGHT_MAX,
            forall|i: int|
                0 <= i < one_bit_weights@.len() ==> #[trigger] one_bit_weights@[i]
                    <= kt_search_tree::BIT_WEIGHT_MAX,
        ensures
            encoded@.len() == encoding_capacity || encoded@.len() == 0,
            encoded@.len() == 0 <==> kt_search_tree::spec_beam_collapsed(
                message@,
                zero_bit_weights@,
                one_bit_weights@,
                freedom_bit_count,
                self.fwd(),
                encoding_capacity as int,
            ),
            encoded@.len() > 0 ==> kt_search_tree::encoded_result_ok(
                self.fwd(),
                self.rev(),
                message@,
                freedom_bit_count,
                encoding_capacity as int,
                encoded@,
            ),
            encoded@ == kt_search_tree::spec_best_encoding(
                Seq::empty(),
                message@,
                zero_bit_weights@,
                one_bit_weights@,
                freedom_bit_count,
                self.fwd(),
                encoding_capacity as int,
            ),
    ;

    fn decode(
        &self,
        data: &Vec<u8>,
        encoding_capacity: ByteEncodingCapacity,
        freedom_bit_count: u8,
    ) -> (message: Vec<u8>)
        requires
            transition_tables_wf(self.fwd(), self.rev()),
            freedom_bit_count <= 7,
            encoding_capacity <= kt_search_tree::ENCODING_CAPACITY_MAX,
        ensures
            decoded_message_wf(
                self.fwd(),
                self.rev(),
                data@,
                encoding_capacity,
                freedom_bit_count,
                message@,
            ),
    ;
}

impl StandardKTEncoder {
    pub open spec fn wf(&self) -> bool {
        transition_tables_wf(self.fwd(), self.rev())
    }

    pub fn new(seed: u64) -> (encoder: Self)
        ensures
            encoder.wf(),
            encoder.fwd() == spec_transition_tables(seed).0,
            encoder.rev() == spec_transition_tables(seed).1,
    {
        let (transition_function_table, reverse_transition_function_table) =
            generate_transition_function_table(seed);

        StandardKTEncoder { transition_function_table, reverse_transition_function_table }
    }
}

impl KTEncoder for StandardKTEncoder {
    closed spec fn fwd(&self) -> Seq<u64> {
        self.transition_function_table@
    }

    closed spec fn rev(&self) -> Seq<u64> {
        self.reverse_transition_function_table@
    }

    fn encode_byte(&self, byte: u8, state: u64) -> (r: (u8, u64)) {
        let new_state = state ^ self.transition_function_table[byte as usize];
        proof {
            assert(new_state as u8 == low_byte(new_state) as u8) by (bit_vector);
        }
        (new_state as u8, (new_state >> 8) | (new_state << 56))
    }

    /// Recovers the message bits carried by a code stream: each byte is
    /// decoded against the running state and its high `8 - F` bits (the
    /// positions the encoder fills from the message) are appended, highest
    /// first, to the output bit stream. Freedom bits are ignored.
    /// Encodes a message: the beam search chooses the freedom bits of each
    /// step's template so that the emitted bytes score best against the
    /// per-bit weight profile. An empty result is the fatal empty-frontier
    /// failure — the pruning threshold fell below every surviving path at
    /// some step — and is the caller's to surface.
    fn encode(
        &self,
        message: &Vec<u8>,
        zero_bit_weights: &Vec<u64>,
        one_bit_weights: &Vec<u64>,
        encoding_capacity: ByteEncodingCapacity,
        freedom_bit_count: u8,
    ) -> (encoded: Vec<u8>) {
        let config = kt_search_tree::Config {
            freedom_bit_count,
            zero_bit_weights,
            one_bit_weights,
            encoding_capacity,
            encoding_method: self,
        };
        let mut search_tree = kt_search_tree::SearchTree::new(&config);
        proof {
            assert(search_tree.arena() =~= Seq::<kt_search_tree::SearchNode>::empty());
        }
        search_tree.find_best_encoding(message)
    }

    #[verifier::loop_isolation(false)]
    fn decode(&self, data: &Vec<u8>, encoding_capacity: ByteEncodingCapacity, freedom_bit_count: u8) -> (message: Vec<u8>) {
        let width: u64 = 8 - freedom_bit_count as u64;
        proof {
            assert(encoding_capacity * width <= 0x8_0000_0000) by (nonlinear_arith)
                requires
                    encoding_capacity <= 0x1_0000_0000,
                    0 <= width <= 8,
            ;
        }
        let bit_capacity: u64 = encoding_capacity * width;
        let out_len: u64 = (bit_capacity + 7) / 8;
        proof {
            assert(out_len <= encoding_capacity) by (nonlinear_arith)
                requires
                    out_len == (encoding_capacity * width + 7) / 8,
                    1 <= width <= 8,
                    encoding_capacity >= 0,
            ;
            assert(8 * out_len >= bit_capacity) by (nonlinear_arith)
                requires
                    out_len == (bit_capacity + 7) / 8,
                    bit_capacity >= 0,
            ;
        }
        let mut message: Vec<u8> = vec![0u8; out_len as usize];
        let ghost plains = spec_decode_stream(self.fwd(), self.rev(), data@, 0).0;
        proof {
            lemma_decode_stream_len(self.fwd(), self.rev(), data@, 0);
            assert forall|g: int| 0 <= g implies !stream_bit(message@, g) by {
                if g / 8 < message@.len() {
                    lemma_zero_bit((g % 8) as u8);
                }
            }
        }
        let mut state: u64 = 0;
        let data_len = data.len();
        proof {
            assert(0 * width == 0);
            assert(data@.take(0) =~= Seq::<u8>::empty());
        }
        for s in 0..data_len
            invariant
                message@.len() == out_len,
                state == spec_decode_stream(self.fwd(), self.rev(), data@.take(s as int), 0).1,
                forall|g: int|
                    0 <= g < decoded_step_count(s as int, encoding_capacity) * width ==> stream_bit(
                        message@,
                        g,
                    ) == nth_bit(plains[g / width as int], (7 - g % width as int) as u8),
                forall|g: int|
                    decoded_step_count(s as int, encoding_capacity) * width <= g ==> !stream_bit(
                        message@,
                        g,
                    ),
        {
            let (decoded_byte, new_state) = self.decode_byte(data[s], state);
            proof {
                let pre = data@.take(s as int);
                let cur = data@.take(s as int + 1);
                assert(cur.drop_last() =~= pre);
                assert(cur.last() == data@[s as int]);
                lemma_decode_stream_prefix(self.fwd(), self.rev(), data@, 0, s as int + 1);
                lemma_decode_stream_len(self.fwd(), self.rev(), pre, 0);
                assert(spec_decode_stream(self.fwd(), self.rev(), cur, 0).0 == plains.take(
                    s as int + 1,
                ));
                assert(plains.take(s as int + 1).last() == plains[s as int]);
                assert(decoded_byte == plains[s as int]);
            }
            state = new_state;
            if (s as u64) < encoding_capacity {
                proof {
                    assert(decoded_step_count(s as int, encoding_capacity) == s as int);
                }
                for j in 0..width
                invariant
                    message@.len() == out_len,
                    forall|g: int|
                        0 <= g < s * width + j ==> stream_bit(message@, g) == nth_bit(
                            plains[g / width as int],
                            (7 - g % width as int) as u8,
                        ),
                    forall|g: int| s * width + j <= g ==> !stream_bit(message@, g),
            {
                proof {
                    assert(s * width + j < bit_capacity) by (nonlinear_arith)
                        requires
                            0 <= s < encoding_capacity,
                            0 <= j < width,
                            bit_capacity == encoding_capacity * width,
                    ;
                }
                let g: u64 = s as u64 * width + j;
                proof {
                    assert(g < bit_capacity);
                    assert(g / 8 < out_len) by (nonlinear_arith)
                        requires
                            0 <= g < bit_capacity,
                            bit_capacity <= 8 * out_len,
                    ;
                    vstd::arithmetic::div_mod::lemma_fundamental_div_mod(g as int, 8);
                    vstd::arithmetic::div_mod::lemma_fundamental_div_mod_converse(
                        g as int,
                        width as int,
                        s as int,
                        j as int,
                    );
                }
                let byte_index = (g / 8) as usize;
                let shift: u8 = (g % 8) as u8;
                let bit: bool = ((decoded_byte >> ((7 - j) as u8)) & 1) == 1;
                let ghost old_message = message@;
                if bit {
                    message[byte_index] = message[byte_index] | (1u8 << shift);
                }
                proof {
                    assert(g % 8 < 8);
                    assert forall|g2: int|
                        0 <= g2 && g2 != g implies stream_bit(message@, g2) == stream_bit(
                        old_message,
                        g2,
                    ) by {
                        if bit {
                            vstd::arithmetic::div_mod::lemma_fundamental_div_mod(g2, 8);
                            if g2 / 8 == byte_index {
                                assert(g2 % 8 != g % 8);
                                lemma_or_bit(old_message[g2 / 8], shift, (g2 % 8) as u8);
                            }
                        }
                    }
                    if bit {
                        lemma_or_bit(old_message[g as int / 8], shift, shift);
                        assert(stream_bit(message@, g as int));
                    } else {
                        assert(!stream_bit(old_message, g as int));
                        assert(!stream_bit(message@, g as int));
                    }
                    assert(g as int / width as int == s as int);
                    assert(g as int % width as int == j as int);
                    assert(nth_bit(
                        plains[g as int / width as int],
                        (7 - g as int % width as int) as u8,
                    ) == bit);
                    assert forall|g2: int|
                        0 <= g2 < s * width + j + 1 implies stream_bit(message@, g2) == nth_bit(
                        plains[g2 / width as int],
                        (7 - g2 % width as int) as u8,
                    ) by {
                        if g2 == g {
                        } else {
                            assert(g2 < g);
                            assert(stream_bit(message@, g2) == stream_bit(old_message, g2));
                        }
                    }
                    assert forall|g2: int| s * width + j + 1 <= g2 implies !stream_bit(
                        message@,
                        g2,
                    ) by {
                        assert(g2 != g);
                        assert(!stream_bit(old_message, g2));
                        assert(stream_bit(message@, g2) == stream_bit(old_message, g2));
                    }
                }
            }
                proof {
                    assert((s + 1) * width == s * width + width) by (nonlinear_arith);
                    assert(decoded_step_count(s as int + 1, encoding_capacity) == s as int + 1);
                }
            }
        }
        proof {
            assert(data@.take(data_len as int) =~= data@);
            assert(decoded_step_count(data_len as int, encoding_capacity) * width
                <= encoding_capacity * width) by (nonlinear_arith)
                requires
                    decoded_step_count(data_len as int, encoding_capacity) <= encoding_capacity,
                    width >= 0,
            ;
        }
        message
    }

    fn decode_byte(&self, byte: u8, state: u64) -> (r: (u8, u64)) {
        let index = (byte as u64 ^ state) as usize & MASK;
        proof {
            assert((byte as u64 ^ state) as usize & 255 == low_byte((byte as u64) ^ state) as usize)
                by (bit_vector);
            assert(low_byte((byte as u64) ^ state) < 256) by (bit_vector);
        }
        let decoded_byte = self.reverse_transition_function_table[index];
        let new_state = state ^ self.transition_function_table[decoded_byte as usize];
        (decoded_byte as u8, (new_state >> 8) | (new_state << 56))
    }
}

pub(crate) proof fn lemma_byte_from_bits(x: u8, y: u8)
    by (bit_vector)
    requires
        nth_bit(x, 0) == nth_bit(y, 0),
        nth_bit(x, 1) == nth_bit(y, 1),
        nth_bit(x, 2) == nth_bit(y, 2),
        nth_bit(x, 3) == nth_bit(y, 3),
        nth_bit(x, 4) == nth_bit(y, 4),
        nth_bit(x, 5) == nth_bit(y, 5),
        nth_bit(x, 6) == nth_bit(y, 6),
        nth_bit(x, 7) == nth_bit(y, 7),
    ensures
        x == y,
{
}

pub(crate) proof fn lemma_byte_all_zero(x: u8)
    by (bit_vector)
    requires
        !nth_bit(x, 0),
        !nth_bit(x, 1),
        !nth_bit(x, 2),
        !nth_bit(x, 3),
        !nth_bit(x, 4),
        !nth_bit(x, 5),
        !nth_bit(x, 6),
        !nth_bit(x, 7),
    ensures
        x == 0,
{
}

/// Decoding a successful encode recovers the message bit for bit: each of
/// the `capacity * (8 - F)` carried bits of the decoded output equals the
/// same message bit, and every bit beyond them is zero. A message longer
/// than the capacity carries is truncated; a shorter one reads as zeros
/// past its end.
pub proof fn lemma_encode_decode_round_trip(
    fwd: Seq<u64>,
    rev: Seq<u64>,
    msg: Seq<u8>,
    codes: Seq<u8>,
    decoded: Seq<u8>,
    encoding_capacity: u64,
    freedom_bit_count: u8,
)
    requires
        transition_tables_wf(fwd, rev),
        freedom_bit_count <= 7,
        kt_search_tree::encoded_result_ok(
            fwd,
            rev,
            msg,
            freedom_bit_count,
            encoding_capacity as int,
            codes,
        ),
        decoded_message_wf(fwd, rev, codes, encoding_capacity, freedom_bit_count, decoded),
    ensures
        forall|g: int|
            0 <= g < encoding_capacity * (8 - freedom_bit_count as int) ==> stream_bit(decoded, g)
                == stream_bit(msg, g),
        forall|g: int|
            encoding_capacity * (8 - freedom_bit_count as int) <= g ==> !stream_bit(decoded, g),
{
    let width = 8 - freedom_bit_count as int;
    let plains = spec_decode_stream(fwd, rev, codes, 0).0;
    lemma_decode_stream_len(fwd, rev, codes, 0);
    assert forall|g: int| 0 <= g < encoding_capacity * width implies stream_bit(decoded, g)
        == stream_bit(msg, g) by {
        let s = g / width;
        let j = g % width;
        vstd::arithmetic::div_mod::lemma_fundamental_div_mod(g, width);
        vstd::arithmetic::div_mod::lemma_mod_division_less_than_divisor(g, width);
        assert(s < encoding_capacity) by (nonlinear_arith)
            requires
                g < encoding_capacity * width,
                g == width * s + j,
                0 <= j < width,
                width >= 1,
                s >= 0,
        ;
        assert(stream_bit(decoded, g) == nth_bit(plains[s], (7 - j) as u8));
        let t = spec_template(msg, freedom_bit_count, s);
        assert((plains[s] >> freedom_bit_count) == (t >> freedom_bit_count));
        lemma_high_bits_shift(plains[s], t, freedom_bit_count, (7 - j) as u8);
        lemma_template_bits(msg, freedom_bit_count, s);
        assert(nth_bit(t, (7 - j) as u8) == stream_bit(msg, s * width + (7 - (7 - j))));
        assert(s * width + j == g) by (nonlinear_arith)
            requires
                g == width * s + j,
        ;
    }
}

/// When the whole message fits in the capacity, decoding the encode gives
/// the message bytes back exactly, followed by zero bytes.
pub proof fn lemma_round_trip_bytes(
    fwd: Seq<u64>,
    rev: Seq<u64>,
    msg: Seq<u8>,
    codes: Seq<u8>,
    decoded: Seq<u8>,
    encoding_capacity: u64,
    freedom_bit_count: u8,
)
    requires
        transition_tables_wf(fwd, rev),
        freedom_bit_count <= 7,
        kt_search_tree::encoded_result_ok(
            fwd,
            rev,
            msg,
            freedom_bit_count,
            encoding_capacity as int,
            codes,
        ),
        decoded_message_wf(fwd, rev, codes, encoding_capacity, freedom_bit_count, decoded),
        8 * msg.len() <= encoding_capacity * (8 - freedom_bit_count as int),
    ensures
        decoded.len() >= msg.len(),
        forall|b: int| 0 <= b < msg.len() ==> #[trigger] decoded[b] == msg[b],
        forall|b: int| msg.len() <= b < decoded.len() ==> #[trigger] decoded[b] == 0,
{
    let width = 8 - freedom_bit_count as int;
    let carried = encoding_capacity * width;
    lemma_encode_decode_round_trip(
        fwd,
        rev,
        msg,
        codes,
        decoded,
        encoding_capacity,
        freedom_bit_count,
    );
    assert(decoded.len() == (carried + 7) / 8);
    assert(8 * msg.len() <= carried ==> msg.len() <= (carried + 7) / 8) by (nonlinear_arith)
        requires
            carried >= 0,
    ;
    assert forall|b: int| 0 <= b < msg.len() implies #[trigger] decoded[b] == msg[b] by {
        assert forall|i: u8| i < 8 implies #[trigger] nth_bit(decoded[b], i) == nth_bit(
            msg[b],
            i,
        ) by {
            vstd::arithmetic::div_mod::lemma_fundamental_div_mod_converse(
                8 * b + i as int,
                8,
                b,
                i as int,
            );
            assert(nth_bit(decoded[b], i) == stream_bit(decoded, 8 * b + i as int));
            assert(nth_bit(msg[b], i) == stream_bit(msg, 8 * b + i as int));
            assert(8 * b + i < carried);
            assert(stream_bit(decoded, 8 * b + i as int) == stream_bit(msg, 8 * b + i as int));
        }
        lemma_byte_from_bits(decoded[b], msg[b]);
    }
    assert forall|b: int| msg.len() <= b < decoded.len() implies #[trigger] decoded[b] == 0 by {
        assert forall|i: u8| i < 8 implies !#[trigger] nth_bit(decoded[b], i) by {
            vstd::arithmetic::div_mod::lemma_fundamental_div_mod_converse(
                8 * b + i as int,
                8,
                b,
                i as int,
            );
            assert(nth_bit(decoded[b], i) == stream_bit(decoded, 8 * b + i as int));
            if 8 * b + i < carried {
                assert(stream_bit(decoded, 8 * b + i as int) == stream_bit(msg, 8 * b + i as int));
                assert(!stream_bit(msg, 8 * b + i as int));
            } else {
                assert(!stream_bit(decoded, 8 * b + i as int));
            }
        }
        lemma_byte_all_zero(decoded[b]);
    }
}

/// With no freedom bits the beam degenerates: a successful encode is
/// exactly the plain KT stream of the per-step message templates.
pub proof fn lemma_zero_freedom_is_plain_stream(
    fwd: Seq<u64>,
    rev: Seq<u64>,
    msg: Seq<u8>,
    codes: Seq<u8>,
    encoding_capacity: u64,
)
    requires
        transition_tables_wf(fwd, rev),
        kt_search_tree::encoded_result_ok(fwd, rev, msg, 0, encoding_capacity as int, codes),
    ensures
        codes == spec_encode_stream(
            fwd,
            Seq::new(encoding_capacity as nat, |k: int| spec_template(msg, 0, k)),
            0,
        ).0,
{
    let plains = spec_decode_stream(fwd, rev, codes, 0).0;
    let templates = Seq::new(encoding_capacity as nat, |k: int| spec_template(msg, 0, k));
    lemma_decode_stream_len(fwd, rev, codes, 0);
    assert forall|k: int| 0 <= k < encoding_capacity implies plains[k] == templates[k] by {
        let p = plains[k];
        let t = spec_template(msg, 0, k);
        assert(p >> 0u8 == t >> 0u8);
        assert((p >> 0u8 == t >> 0u8) ==> p == t) by (bit_vector);
    }
    assert(plains =~= templates);
    lemma_stream_decode_then_encode(fwd, rev, codes, 0);
}

proof fn lemma_mul_keeps_multiple_of_256(m: int, v: int)
    requires
        m % 256 == 0,
        0 <= m,
        0 <= v,
    ensures
        (m * v) % 256 == 0,
{
    let q = m / 256;
    lemma_fundamental_div_mod_local(m);
    assert(m * v == 256 * (q * v)) by (nonlinear_arith)
        requires
            m == 256 * q,
    ;
    lemma_mod_multiples_vanish(q * v, 0, 256);
}

proof fn lemma_fundamental_div_mod_local(x: int)
    ensures
        x == 256 * (x / 256) + x % 256,
{
    vstd::arithmetic::div_mod::lemma_fundamental_div_mod(x, 256);
}

proof fn lemma_pow256_le_specific(p: nat)
    requires
        p <= 6,
    ensures
        pow256(p) <= 0x1_0000_0000_0000,
{
    lemma_pow256_values();
    if p == 0 {
    } else if p == 1 {
    } else if p == 2 {
    } else if p == 3 {
    } else if p == 4 {
    } else if p == 5 {
    } else {
        assert(p == 6);
    }
}

} // verus!
