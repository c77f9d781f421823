//! The beam search that resolves the freedom bits.
//!
//! Each step extends every live path by all `2^F` freedom-bit choices of the
//! step's byte template, scores the emitted byte against the per-step weight
//! profile, and prunes paths whose cumulative weight falls outside a
//! quantile band above the live minimum. Retained parents are copied into an
//! append-only arena; children point back to their parent's arena slot, and
//! the best final path is read off by chasing those indices.
//!
//! Weights are fixed-point code lengths: non-negative integers. A caller
//! derives them from per-pixel probabilities; the search only adds and
//! compares them, so any scale below the documented bounds works.

use vstd::prelude::*;

use super::{
    lemma_byte_round_trip, lemma_freedom_merge, lemma_template_low_mask, spec_decode_stream,
    spec_encode_byte, spec_template, stream_bit, template_prefix, transition_tables_wf,
    build_template, nth_bit, ByteEncodingCapacity, KTEncoder, StandardKTEncoder,
};

verus! {

/// Largest per-bit weight a caller may supply.
pub const BIT_WEIGHT_MAX: u64 = 0x100_0000;

/// Largest per-byte weight: eight bits at the per-bit maximum.
pub const BYTE_WEIGHT_MAX: u64 = 0x800_0000;

/// Largest number of codec steps in one encode.
pub const ENCODING_CAPACITY_MAX: u64 = 0xFFFF_FFFF;

/// Largest cumulative path weight: `ENCODING_CAPACITY_MAX` steps at the
/// per-byte maximum.
pub const PATH_WEIGHT_MAX: u64 = 0x800_0000_0000_0000;

pub struct Config<'a> {
    pub freedom_bit_count: u8,
    pub zero_bit_weights: &'a Vec<u64>,
    pub one_bit_weights: &'a Vec<u64>,
    pub encoding_capacity: ByteEncodingCapacity,
    pub encoding_method: &'a StandardKTEncoder,
}

impl<'a> Config<'a> {
    pub open spec fn wf(&self) -> bool {
        &&& self.encoding_method.wf()
        &&& self.freedom_bit_count <= 7
        &&& self.zero_bit_weights@.len() == self.one_bit_weights@.len()
        &&& self.zero_bit_weights@.len() >= 8 * self.encoding_capacity
        &&& 1 <= self.encoding_capacity <= ENCODING_CAPACITY_MAX
        &&& forall|i: int|
            0 <= i < self.zero_bit_weights@.len() ==> #[trigger] self.zero_bit_weights@[i]
                <= BIT_WEIGHT_MAX
        &&& forall|i: int|
            0 <= i < self.one_bit_weights@.len() ==> #[trigger] self.one_bit_weights@[i]
                <= BIT_WEIGHT_MAX
    }
}

#[derive(Debug)]
pub struct SearchNode {
    pub parent_index: Option<usize>,
    pub encoded_byte: u8,
    pub state: u64,
    pub weight: u64,
}

impl SearchNode {
    pub fn new(parent_index: Option<usize>, encoded_byte: u8, state: u64, weight: u64) -> (node:
        SearchNode)
        ensures
            node.parent_index == parent_index,
            node.encoded_byte == encoded_byte,
            node.state == state,
            node.weight == weight,
    {
        SearchNode { parent_index, encoded_byte, state, weight }
    }
}

/// The back-pointer chain from `parent` reaches `depth` arena entries.
pub open spec fn chain_wf(arena: Seq<SearchNode>, parent: Option<usize>, depth: int) -> bool
    decreases depth,
{
    if depth <= 0 {
        true
    } else {
        match parent {
            Option::Some(i) => i < arena.len() && chain_wf(
                arena,
                arena[i as int].parent_index,
                depth - 1,
            ),
            Option::None => false,
        }
    }
}

/// The encoded bytes along the back-pointer chain, oldest first.
pub open spec fn chain_bytes(arena: Seq<SearchNode>, parent: Option<usize>, depth: int) -> Seq<u8>
    decreases depth,
{
    if depth <= 0 {
        Seq::empty()
    } else {
        match parent {
            Option::Some(i) => if i < arena.len() {
                chain_bytes(arena, arena[i as int].parent_index, depth - 1).push(
                    arena[i as int].encoded_byte,
                )
            } else {
                Seq::empty()
            },
            Option::None => Seq::empty(),
        }
    }
}

/// The code bytes of the path ending in `node`, oldest first.
pub open spec fn node_path(arena: Seq<SearchNode>, node: SearchNode, depth: int) -> Seq<u8> {
    chain_bytes(arena, node.parent_index, depth - 1).push(node.encoded_byte)
}

proof fn lemma_chain_len(arena: Seq<SearchNode>, parent: Option<usize>, depth: int)
    requires
        chain_wf(arena, parent, depth),
        depth >= 0,
    ensures
        chain_bytes(arena, parent, depth).len() == depth,
    decreases depth,
{
    if depth > 0 {
        let i = parent.unwrap();
        lemma_chain_len(arena, arena[i as int].parent_index, depth - 1);
    }
}

/// Growing the arena changes no existing chain.
proof fn lemma_chain_extend(
    arena: Seq<SearchNode>,
    extended: Seq<SearchNode>,
    parent: Option<usize>,
    depth: int,
)
    requires
        chain_wf(arena, parent, depth),
        arena.is_prefix_of(extended),
    ensures
        chain_wf(extended, parent, depth),
        chain_bytes(extended, parent, depth) == chain_bytes(arena, parent, depth),
    decreases depth,
{
    if depth > 0 {
        let i = parent.unwrap();
        assert(extended[i as int] == arena[i as int]);
        lemma_chain_extend(arena, extended, arena[i as int].parent_index, depth - 1);
    }
}

/// Every decoded plain byte of `path` carries the message bits of its step:
/// its high bits agree with the step's template.
pub open spec fn path_matches(
    fwd: Seq<u64>,
    rev: Seq<u64>,
    path: Seq<u8>,
    templates: Seq<u8>,
    freedom_bit_count: u8,
) -> bool {
    let plains = spec_decode_stream(fwd, rev, path, 0).0;
    &&& path.len() <= templates.len()
    &&& forall|k: int|
        0 <= k < path.len() ==> (#[trigger] plains[k] >> freedom_bit_count) == (
        templates[k] >> freedom_bit_count)
}

/// A live beam node at `depth` steps: its back-pointer chain is intact, its
/// recorded state is the decode state of its path, and its path carries the
/// message bits of the first `depth` templates.
pub open spec fn node_ok(
    arena: Seq<SearchNode>,
    fwd: Seq<u64>,
    rev: Seq<u64>,
    templates: Seq<u8>,
    freedom_bit_count: u8,
    depth: int,
    node: SearchNode,
) -> bool {
    if depth <= 0 {
        node.state == 0
    } else {
        &&& chain_wf(arena, node.parent_index, depth - 1)
        &&& spec_decode_stream(fwd, rev, node_path(arena, node, depth), 0).1 == node.state
        &&& path_matches(fwd, rev, node_path(arena, node, depth), templates, freedom_bit_count)
    }
}

/// The weight profile summed for one byte value, bit by bit.
pub open spec fn spec_byte_weight_prefix(
    zero: Seq<u64>,
    one: Seq<u64>,
    step: int,
    value: u8,
    j: int,
) -> int
    decreases j,
{
    if j <= 0 {
        0
    } else {
        spec_byte_weight_prefix(zero, one, step, value, j - 1) + if nth_bit(value, (j - 1) as u8) {
            one[8 * step + (j - 1)]
        } else {
            zero[8 * step + (j - 1)]
        }
    }
}

/// The code-length weight of emitting `value` at `step`: for each of its
/// eight bits, the one-weight where the bit is set, else the zero-weight.
pub open spec fn spec_byte_weight(zero: Seq<u64>, one: Seq<u64>, step: int, value: u8) -> int {
    spec_byte_weight_prefix(zero, one, step, value, 8)
}

/// The per-bit weight slices of one step.
pub fn calculate_bit_weights_for_step(
    zero_bit_weights: &Vec<u64>,
    one_bit_weights: &Vec<u64>,
    step: usize,
) -> (weights: (Vec<u64>, Vec<u64>))
    requires
        zero_bit_weights@.len() == one_bit_weights@.len(),
        8 * step + 8 <= zero_bit_weights@.len(),
    ensures
        weights.0@.len() == 8,
        weights.1@.len() == 8,
        forall|i: int| 0 <= i < 8 ==> #[trigger] weights.0@[i] == zero_bit_weights@[8 * step + i],
        forall|i: int| 0 <= i < 8 ==> #[trigger] weights.1@[i] == one_bit_weights@[8 * step + i],
{
    let total = zero_bit_weights.len();
    let mut zero_weights: Vec<u64> = Vec::new();
    let mut one_weights: Vec<u64> = Vec::new();
    for i in 0..8usize
        invariant
            zero_bit_weights@.len() == one_bit_weights@.len(),
            zero_bit_weights@.len() == total,
            8 * step + 8 <= total,
            zero_weights@.len() == i,
            one_weights@.len() == i,
            forall|k: int|
                0 <= k < i ==> #[trigger] zero_weights@[k] == zero_bit_weights@[8 * step + k],
            forall|k: int| 0 <= k < i ==> #[trigger] one_weights@[k] == one_bit_weights@[8 * step + k],
    {
        zero_weights.push(zero_bit_weights[8 * step + i]);
        one_weights.push(one_bit_weights[8 * step + i]);
    }
    (zero_weights, one_weights)
}

/// The weight of every possible code byte at one step.
#[verifier::loop_isolation(false)]
pub fn calculate_byte_value_weights_for_step(
    zero_bit_weights: &Vec<u64>,
    one_bit_weights: &Vec<u64>,
    step: usize,
) -> (all_byte_weights: Vec<u64>)
    requires
        zero_bit_weights@.len() == one_bit_weights@.len(),
        8 * step + 8 <= zero_bit_weights@.len(),
        forall|i: int|
            0 <= i < zero_bit_weights@.len() ==> #[trigger] zero_bit_weights@[i] <= BIT_WEIGHT_MAX,
        forall|i: int|
            0 <= i < one_bit_weights@.len() ==> #[trigger] one_bit_weights@[i] <= BIT_WEIGHT_MAX,
    ensures
        all_byte_weights@.len() == 256,
        forall|v: int|
            0 <= v < 256 ==> #[trigger] all_byte_weights@[v] == spec_byte_weight(
                zero_bit_weights@,
                one_bit_weights@,
                step as int,
                v as u8,
            ),
        forall|v: int| 0 <= v < 256 ==> #[trigger] all_byte_weights@[v] <= BYTE_WEIGHT_MAX,
{
    let total = zero_bit_weights.len();
    let weights = calculate_bit_weights_for_step(zero_bit_weights, one_bit_weights, step);
    let mut all_byte_weights: Vec<u64> = Vec::new();
    for byte in 0..256usize
        invariant
            all_byte_weights@.len() == byte,
            forall|v: int|
                0 <= v < byte ==> #[trigger] all_byte_weights@[v] == spec_byte_weight(
                    zero_bit_weights@,
                    one_bit_weights@,
                    step as int,
                    v as u8,
                ),
            forall|v: int| 0 <= v < byte ==> #[trigger] all_byte_weights@[v] <= BYTE_WEIGHT_MAX,
    {
        let mut weight: u64 = 0;
        for index in 0..8usize
            invariant
                weight == spec_byte_weight_prefix(
                    zero_bit_weights@,
                    one_bit_weights@,
                    step as int,
                    byte as u8,
                    index as int,
                ),
                weight <= index * BIT_WEIGHT_MAX,
        {
            let bit_weight = if ((byte as u8) >> (index as u8)) & 1 == 1 {
                weights.1[index]
            } else {
                weights.0[index]
            };
            proof {
                assert(nth_bit(byte as u8, index as u8) == (((byte as u8) >> (index as u8)) & 1
                    == 1));
            }
            weight = weight + bit_weight;
        }
        all_byte_weights.push(weight);
    }
    all_byte_weights
}

/// The least cumulative weight in a frontier.
pub open spec fn spec_min_weight(nodes: Seq<SearchNode>) -> u64
    decreases nodes.len(),
{
    if nodes.len() <= 1 {
        if nodes.len() == 0 {
            0
        } else {
            nodes[0].weight
        }
    } else {
        let rest = spec_min_weight(nodes.drop_last());
        if nodes.last().weight < rest {
            nodes.last().weight
        } else {
            rest
        }
    }
}

/// The greatest cumulative weight in a frontier.
pub open spec fn spec_max_weight(nodes: Seq<SearchNode>) -> u64
    decreases nodes.len(),
{
    if nodes.len() <= 1 {
        if nodes.len() == 0 {
            0
        } else {
            nodes[0].weight
        }
    } else {
        let rest = spec_max_weight(nodes.drop_last());
        if nodes.last().weight > rest {
            nodes.last().weight
        } else {
            rest
        }
    }
}

pub proof fn lemma_min_max_weight_bounds(nodes: Seq<SearchNode>, k: int)
    requires
        0 <= k < nodes.len(),
    ensures
        spec_min_weight(nodes) <= nodes[k].weight,
        spec_max_weight(nodes) >= nodes[k].weight,
    decreases nodes.len(),
{
    if nodes.len() > 1 && k < nodes.len() - 1 {
        lemma_min_max_weight_bounds(nodes.drop_last(), k);
    }
}

pub proof fn lemma_min_weight_attained(nodes: Seq<SearchNode>) -> (k: int)
    requires
        nodes.len() > 0,
    ensures
        0 <= k < nodes.len(),
        nodes[k].weight == spec_min_weight(nodes),
    decreases nodes.len(),
{
    if nodes.len() == 1 {
        0
    } else if nodes.last().weight < spec_min_weight(nodes.drop_last()) {
        nodes.len() - 1
    } else {
        lemma_min_weight_attained(nodes.drop_last())
    }
}

proof fn lemma_min_weight_ge(nodes: Seq<SearchNode>, bound: u64)
    requires
        nodes.len() > 0,
        forall|k: int| 0 <= k < nodes.len() ==> #[trigger] nodes[k].weight >= bound,
    ensures
        spec_min_weight(nodes) >= bound,
{
    let k = lemma_min_weight_attained(nodes);
}

proof fn lemma_max_weight_attained(nodes: Seq<SearchNode>) -> (k: int)
    requires
        nodes.len() > 0,
    ensures
        0 <= k < nodes.len(),
        nodes[k].weight == spec_max_weight(nodes),
    decreases nodes.len(),
{
    if nodes.len() == 1 {
        0
    } else if nodes.last().weight > spec_max_weight(nodes.drop_last()) {
        nodes.len() - 1
    } else {
        lemma_max_weight_attained(nodes.drop_last())
    }
}

proof fn lemma_max_weight_le(nodes: Seq<SearchNode>, bound: int)
    requires
        nodes.len() > 0,
        forall|k: int| 0 <= k < nodes.len() ==> #[trigger] nodes[k].weight <= bound,
    ensures
        spec_max_weight(nodes) <= bound,
{
    let k = lemma_max_weight_attained(nodes);
}

/// The path selected at the end of one encode: its back-pointer chain is
/// intact and its decoded plain bytes carry the message bits of every step.
pub open spec fn selected_node_ok(
    arena: Seq<SearchNode>,
    fwd: Seq<u64>,
    rev: Seq<u64>,
    msg: Seq<u8>,
    freedom_bit_count: u8,
    capacity: int,
    node: SearchNode,
) -> bool {
    &&& chain_wf(arena, node.parent_index, capacity - 1)
    &&& ({
        let plains = spec_decode_stream(fwd, rev, node_path(arena, node, capacity), 0).0;
        forall|k: int|
            0 <= k < capacity ==> (#[trigger] plains[k] >> freedom_bit_count) == (spec_template(
                msg,
                freedom_bit_count,
                k,
            ) >> freedom_bit_count)
    })
}

/// What a successful encode returns: exactly `capacity` code bytes whose
/// decoded plain bytes carry the message bits of every step.
pub open spec fn encoded_result_ok(
    fwd: Seq<u64>,
    rev: Seq<u64>,
    msg: Seq<u8>,
    freedom_bit_count: u8,
    capacity: int,
    codes: Seq<u8>,
) -> bool {
    &&& codes.len() == capacity
    &&& ({
        let plains = spec_decode_stream(fwd, rev, codes, 0).0;
        forall|k: int|
            0 <= k < capacity ==> (#[trigger] plains[k] >> freedom_bit_count) == (spec_template(
                msg,
                freedom_bit_count,
                k,
            ) >> freedom_bit_count)
    })
}

/// How many frontier nodes a threshold admits (over the first `k` nodes).
pub open spec fn count_admitted(nodes: Seq<SearchNode>, k: int, max_weight: i128) -> int
    decreases k,
{
    if k <= 0 {
        0
    } else {
        count_admitted(nodes, k - 1, max_weight) + if nodes[k - 1].weight as i128 <= max_weight {
            1int
        } else {
            0int
        }
    }
}

proof fn lemma_count_admitted_le(nodes: Seq<SearchNode>, k: int, max_weight: i128)
    requires
        k >= 0,
    ensures
        0 <= count_admitted(nodes, k, max_weight) <= k,
    decreases k,
{
    if k > 0 {
        lemma_count_admitted_le(nodes, k - 1, max_weight);
    }
}

/// The quantile bucket a weight falls in, when the band is not degenerate.
pub open spec fn bucket_index(weight: u64, min_weight: u64, range: u64) -> int {
    if range == 0 {
        0
    } else {
        1000 * (weight - min_weight) / range as int
    }
}

pub open spec fn count_bucket(nodes: Seq<SearchNode>, k: int, min_weight: u64, range: u64, b: int) -> int
    decreases k,
{
    if k <= 0 {
        0
    } else {
        count_bucket(nodes, k - 1, min_weight, range, b) + if bucket_index(
            nodes[k - 1].weight,
            min_weight,
            range,
        ) == b {
            1int
        } else {
            0int
        }
    }
}

pub open spec fn count_below(nodes: Seq<SearchNode>, k: int, min_weight: u64, range: u64, i: int) -> int
    decreases k,
{
    if k <= 0 {
        0
    } else {
        count_below(nodes, k - 1, min_weight, range, i) + if bucket_index(
            nodes[k - 1].weight,
            min_weight,
            range,
        ) < i {
            1int
        } else {
            0int
        }
    }
}

proof fn lemma_count_below_le(nodes: Seq<SearchNode>, k: int, min_weight: u64, range: u64, i: int)
    requires
        k >= 0,
    ensures
        0 <= count_below(nodes, k, min_weight, range, i) <= k,
    decreases k,
{
    if k > 0 {
        lemma_count_below_le(nodes, k - 1, min_weight, range, i);
    }
}

proof fn lemma_count_below_empty(nodes: Seq<SearchNode>, k: int, min_weight: u64, range: u64)
    requires
        0 <= k <= nodes.len(),
        forall|idx: int| 0 <= idx < nodes.len() ==> #[trigger] nodes[idx].weight >= min_weight,
    ensures
        count_below(nodes, k, min_weight, range, 0) == 0,
    decreases k,
{
    if k > 0 {
        lemma_count_below_empty(nodes, k - 1, min_weight, range);
        if range != 0 {
            vstd::arithmetic::div_mod::lemma_div_pos_is_pos(
                1000 * (nodes[k - 1].weight - min_weight),
                range as int,
            );
        }
    }
}

proof fn lemma_count_below_step(nodes: Seq<SearchNode>, k: int, min_weight: u64, range: u64, i: int)
    requires
        k >= 0,
    ensures
        count_below(nodes, k, min_weight, range, i + 1) == count_below(nodes, k, min_weight, range, i)
            + count_bucket(nodes, k, min_weight, range, i),
    decreases k,
{
    if k > 0 {
        lemma_count_below_step(nodes, k - 1, min_weight, range, i);
    }
}

proof fn lemma_count_below_monotone(
    nodes: Seq<SearchNode>,
    k: int,
    min_weight: u64,
    range: u64,
    i1: int,
    i2: int,
)
    requires
        k >= 0,
        i1 <= i2,
    ensures
        count_below(nodes, k, min_weight, range, i1) <= count_below(nodes, k, min_weight, range, i2),
    decreases k,
{
    if k > 0 {
        lemma_count_below_monotone(nodes, k - 1, min_weight, range, i1, i2);
    }
}

proof fn lemma_count_admitted_within(
    nodes: Seq<SearchNode>,
    k: int,
    min_weight: u64,
    range: u64,
    max_weight: i128,
    i: int,
)
    requires
        k >= 0,
        forall|idx: int|
            0 <= idx < nodes.len() ==> ((#[trigger] nodes[idx].weight as i128) <= max_weight
                ==> bucket_index(nodes[idx].weight, min_weight, range) < i),
        k <= nodes.len(),
    ensures
        count_admitted(nodes, k, max_weight) <= count_below(nodes, k, min_weight, range, i),
    decreases k,
{
    if k > 0 {
        lemma_count_admitted_within(nodes, k - 1, min_weight, range, max_weight, i);
    }
}

proof fn lemma_count_admitted_none(nodes: Seq<SearchNode>, k: int, max_weight: i128)
    requires
        k >= 0,
        k <= nodes.len(),
        forall|idx: int| 0 <= idx < nodes.len() ==> (#[trigger] nodes[idx].weight as i128) > max_weight,
    ensures
        count_admitted(nodes, k, max_weight) == 0,
    decreases k,
{
    if k > 0 {
        lemma_count_admitted_none(nodes, k - 1, max_weight);
    }
}

/// The beam cap: at most `10_000 >> F` paths survive a step.
pub open spec fn prune_cap(freedom_bit_count: u8) -> int {
    (10_000u64 >> freedom_bit_count) as int
}

/// Where the quantile scan stops: the first bucket index at which the
/// cumulative count reaches the beam cap, or 1000 when it never does.
pub open spec fn spec_scan_index(
    nodes: Seq<SearchNode>,
    min_weight: u64,
    range: u64,
    cap: int,
    i: int,
) -> int
    decreases 1000 - i,
{
    if i >= 1000 {
        1000
    } else if count_below(nodes, nodes.len() as int, min_weight, range, i) >= cap {
        i
    } else {
        spec_scan_index(nodes, min_weight, range, cap, i + 1)
    }
}

/// The exact pruning threshold: the frontier maximum while the frontier is
/// within the beam cap; otherwise `min + (i - 2) * (max - min) / 1000` at
/// the quantile crossing `i`. When the bottom bucket alone reaches the cap
/// (`i == 1` with a non-degenerate band), the threshold falls below every
/// weight: nothing survives and the beam collapses.
pub open spec fn spec_prune_threshold(nodes: Seq<SearchNode>, freedom_bit_count: u8) -> i128 {
    let min = spec_min_weight(nodes);
    let max = spec_max_weight(nodes);
    if nodes.len() <= prune_cap(freedom_bit_count) {
        max as i128
    } else {
        let range = (max - min) as u64;
        let i = spec_scan_index(nodes, min, range, prune_cap(freedom_bit_count), 0);
        (min + ((i - 2) * (range as int)) / 1000) as i128
    }
}

/// The pruning threshold and the frontier minimum for the next step.
///
/// When the frontier exceeds the beam cap and its weights are not all
/// equal, the weights are quantized into 1001 buckets across `[min, max]`
/// and the threshold is cut two buckets below the point where the
/// cumulative count first reaches the cap, so at most `10_000 >> F` nodes
/// survive. When the bottom bucket alone holds the cap's worth, that cut
/// falls below every weight: the next expansion retains nothing and the
/// beam collapses — the fatal empty-frontier failure, surfaced through the
/// encode contract. When the frontier is small, the threshold is the
/// frontier maximum and every node survives; when all weights are equal,
/// the band is degenerate and every tied node survives.
#[verifier::loop_isolation(false)]
#[verifier::rlimit(60)]
pub fn calculate_minmax_weight(prev_search: &Vec<SearchNode>, freedom_bit_count: u8) -> (r: (
    i128,
    u64,
))
    requires
        prev_search@.len() >= 1,
        freedom_bit_count <= 7,
    ensures
        r.1 == spec_min_weight(prev_search@),
        r.0 == spec_prune_threshold(prev_search@, freedom_bit_count),
        prev_search@.len() <= prune_cap(freedom_bit_count) ==> r.0
            == spec_max_weight(prev_search@) as i128,
        (prev_search@.len() <= prune_cap(freedom_bit_count) || spec_max_weight(prev_search@)
            > spec_min_weight(prev_search@)) ==> count_admitted(
            prev_search@,
            prev_search@.len() as int,
            r.0,
        ) <= prune_cap(freedom_bit_count),
{
    let len = prev_search.len();
    let mut min_weight: u64 = prev_search[0].weight;
    let mut max_weight_value: u64 = prev_search[0].weight;
    for k in 1..len
        invariant
            1 <= k <= len,
            min_weight == spec_min_weight(prev_search@.take(k as int)),
            max_weight_value == spec_max_weight(prev_search@.take(k as int)),
    {
        proof {
            assert(prev_search@.take(k as int + 1).drop_last() =~= prev_search@.take(k as int));
            assert(prev_search@.take(k as int + 1).last() == prev_search@[k as int]);
        }
        let w = prev_search[k].weight;
        if w < min_weight {
            min_weight = w;
        }
        if w > max_weight_value {
            max_weight_value = w;
        }
    }
    proof {
        assert(prev_search@.take(len as int) =~= prev_search@);
    }
    let cap: u64 = 10_000u64 >> freedom_bit_count;
    let mut max_weight: i128 = max_weight_value as i128;

    if len > cap as usize {
        let range: u64 = max_weight_value - min_weight;
        let mut bucket: Vec<usize> = vec![0usize; 1001];
        for k in 0..len
            invariant
                bucket@.len() == 1001,
                forall|b: int|
                    0 <= b < 1001 ==> #[trigger] bucket@[b] == count_bucket(
                        prev_search@,
                        k as int,
                        min_weight,
                        range,
                        b,
                    ),
                forall|b: int| 0 <= b < 1001 ==> #[trigger] bucket@[b] <= k,
        {
            let w = prev_search[k].weight;
            proof {
                lemma_min_max_weight_bounds(prev_search@, k as int);
            }
            let interpolated_index: usize = if range == 0 {
                0
            } else {
                proof {
                    assert((1000 * ((w - min_weight) as int)) / (range as int) <= 1000)
                        by (nonlinear_arith)
                        requires
                            range > 0,
                            w - min_weight <= range,
                    ;
                }
                (1000u128 * ((w - min_weight) as u128) / (range as u128)) as usize
            };
            proof {
                assert(interpolated_index as int == bucket_index(w, min_weight, range));
                assert forall|b: int| 0 <= b < 1001 implies count_bucket(
                    prev_search@,
                    k as int + 1,
                    min_weight,
                    range,
                    b,
                ) == count_bucket(prev_search@, k as int, min_weight, range, b) + (
                if bucket_index(w, min_weight, range) == b {
                    1int
                } else {
                    0int
                }) by {}
            }
            let count = bucket[interpolated_index];
            bucket[interpolated_index] = count + 1;
        }
        let mut pred: usize = 0;
        let mut i: u64 = 0;
        proof {
            assert forall|idx: int|
                0 <= idx < prev_search@.len() implies #[trigger] prev_search@[idx].weight
                >= min_weight by {
                lemma_min_max_weight_bounds(prev_search@, idx);
            }
            lemma_count_below_empty(prev_search@, len as int, min_weight, range);
            assert(10_000u64 >> freedom_bit_count >= 78) by (bit_vector)
                requires
                    freedom_bit_count <= 7,
            ;
        }
        while i < 1000 && pred < cap as usize
            invariant
                0 <= i <= 1000,
                pred == count_below(prev_search@, len as int, min_weight, range, i as int),
                spec_scan_index(prev_search@, min_weight, range, cap as int, 0) == spec_scan_index(
                    prev_search@,
                    min_weight,
                    range,
                    cap as int,
                    i as int,
                ),
                i >= 1 ==> count_below(prev_search@, len as int, min_weight, range, i as int - 1)
                    < cap,
                bucket@.len() == 1001,
                forall|b: int|
                    0 <= b < 1001 ==> #[trigger] bucket@[b] == count_bucket(
                        prev_search@,
                        len as int,
                        min_weight,
                        range,
                        b,
                    ),
            decreases 1000 - i,
        {
            proof {
                lemma_count_below_step(prev_search@, len as int, min_weight, range, i as int);
                lemma_count_below_le(prev_search@, len as int, min_weight, range, i as int + 1);
            }
            pred = pred + bucket[i as usize];
            i = i + 1;
        }
        proof {
            if i == 0 {
                assert(pred == 0);
                assert(false);
            }
            assert(spec_scan_index(prev_search@, min_weight, range, cap as int, i as int)
                == i as int);
        }
        if i >= 2 {
            proof {
                assert(((i - 2) as int) * (range as int) <= 1000 * 0xFFFF_FFFF_FFFF_FFFF)
                    by (nonlinear_arith)
                    requires
                        2 <= i <= 1000,
                        range <= 0xFFFF_FFFF_FFFF_FFFF,
                ;
                assert((((i - 2) as int) * (range as int)) / 1000 <= range) by (nonlinear_arith)
                    requires
                        2 <= i <= 1000,
                        range >= 0,
                ;
            }
            let offset: u64 = ((((i - 2) as u128) * (range as u128)) / 1000) as u64;
            max_weight = min_weight as i128 + offset as i128;
            proof {
                let nodes = prev_search@;
                assert(max_weight == spec_prune_threshold(nodes, freedom_bit_count));
                assert forall|idx: int|
                    0 <= idx < nodes.len() implies ((#[trigger] nodes[idx].weight as i128) <= max_weight
                    ==> bucket_index(nodes[idx].weight, min_weight, range) < i as int - 1) by {
                    if nodes[idx].weight as i128 <= max_weight && range > 0 {
                        lemma_min_max_weight_bounds(nodes, idx);
                        let wm = nodes[idx].weight - min_weight;
                        let q = ((i - 2) as int) * (range as int) / 1000;
                        assert(offset as int == q);
                        assert(wm <= q);
                        assert(1000 * wm <= 1000 * q);
                        vstd::arithmetic::div_mod::lemma_fundamental_div_mod(
                            ((i - 2) as int) * (range as int),
                            1000,
                        );
                        vstd::arithmetic::div_mod::lemma_mod_division_less_than_divisor(
                            ((i - 2) as int) * (range as int),
                            1000,
                        );
                        assert(1000 * q <= ((i - 2) as int) * (range as int));
                        assert(1000 * wm / (range as int) <= ((i - 2) as int) * (range as int) / (
                        range as int)) by {
                            vstd::arithmetic::div_mod::lemma_div_is_ordered(
                                1000 * wm,
                                ((i - 2) as int) * (range as int),
                                range as int,
                            );
                        }
                        assert((range as int) * ((i - 2) as int) / (range as int) == (i - 2) as int)
                            by {
                            vstd::arithmetic::div_mod::lemma_div_multiples_vanish(
                                (i - 2) as int,
                                range as int,
                            );
                        }
                        assert(((i - 2) as int) * (range as int) == (range as int) * ((i
                            - 2) as int)) by (nonlinear_arith);
                        assert(bucket_index(nodes[idx].weight, min_weight, range) <= i as int - 2);
                    }
                    if nodes[idx].weight as i128 <= max_weight && range == 0 {
                        assert(bucket_index(nodes[idx].weight, min_weight, range) == 0);
                    }
                }
                lemma_count_admitted_within(
                    nodes,
                    len as int,
                    min_weight,
                    range,
                    max_weight,
                    i as int - 1,
                );
                if i == 1000 && !(pred >= cap as usize) {
                    lemma_count_below_monotone(
                        nodes,
                        len as int,
                        min_weight,
                        range,
                        i as int - 1,
                        i as int,
                    );
                }
            }
        } else {
            // the scan stopped in the bottom bucket: the cut lands one
            // bucket width below the minimum (or exactly on it when the
            // band is degenerate), as the quantile formula dictates
            let deficit: u64 = (((range as u128) + 999) / 1000) as u64;
            max_weight = min_weight as i128 - deficit as i128;
            proof {
                let nodes = prev_search@;
                let d = ((range as int) + 999) / 1000;
                let r1 = ((range as int) + 999) % 1000;
                vstd::arithmetic::div_mod::lemma_fundamental_div_mod((range as int) + 999, 1000);
                vstd::arithmetic::div_mod::lemma_mod_division_less_than_divisor(
                    (range as int) + 999,
                    1000,
                );
                assert(deficit as int == d);
                assert(-(range as int) == 1000 * (-d) + (999 - r1));
                vstd::arithmetic::div_mod::lemma_fundamental_div_mod_converse(
                    -(range as int),
                    1000,
                    -d,
                    999 - r1,
                );
                assert(i == 1);
                assert((i as int - 2) * (range as int) == -(range as int)) by (nonlinear_arith)
                    requires
                        i == 1,
                ;
                assert(max_weight == spec_prune_threshold(nodes, freedom_bit_count));
                if range > 0 {
                    assert(deficit >= 1);
                    assert forall|idx: int|
                        0 <= idx < nodes.len() implies (#[trigger] nodes[idx].weight as i128)
                        > max_weight by {
                        lemma_min_max_weight_bounds(nodes, idx);
                    }
                    lemma_count_admitted_none(nodes, len as int, max_weight);
                }
            }
        }
    } else {
        proof {
            let nodes = prev_search@;
            lemma_count_admitted_le(nodes, len as int, max_weight);
        }
    }
    (max_weight, min_weight)
}

/// What one expansion produces for one surviving parent and one plain byte.
pub open spec fn is_child(
    node: SearchNode,
    fwd: Seq<u64>,
    parent_slot: usize,
    prev: SearchNode,
    weights: Seq<u64>,
    plain: u8,
) -> bool {
    &&& node.parent_index == Option::<usize>::Some(parent_slot)
    &&& node.encoded_byte == spec_encode_byte(fwd, plain, prev.state).0
    &&& node.state == spec_encode_byte(fwd, plain, prev.state).1
    &&& node.weight == prev.weight + weights[node.encoded_byte as int]
}

/// The child one surviving parent spawns for one plain byte.
pub open spec fn spec_child(
    parent: SearchNode,
    plain: u8,
    slot: int,
    weights: Seq<u64>,
    fwd: Seq<u64>,
) -> SearchNode {
    let emitted = spec_encode_byte(fwd, plain, parent.state);
    SearchNode {
        parent_index: Option::Some(slot as usize),
        encoded_byte: emitted.0,
        state: emitted.1,
        weight: (parent.weight + weights[emitted.0 as int]) as u64,
    }
}

/// All `2^F` children of one surviving parent, in ascending freedom-value
/// order, each pointing at the parent's arena slot.
pub open spec fn spec_children_of(
    parent: SearchNode,
    byte: u8,
    freedom_value_count: int,
    slot: int,
    weights: Seq<u64>,
    fwd: Seq<u64>,
) -> Seq<SearchNode> {
    Seq::new(
        freedom_value_count as nat,
        |fv: int| spec_child(parent, (byte + fv) as u8, slot, weights, fwd),
    )
}

/// What one expansion step emits over the first `k` frontier nodes: the
/// children of each parent within the threshold, grouped in frontier order.
pub open spec fn spec_expanded_children(
    prev: Seq<SearchNode>,
    k: int,
    max_weight: i128,
    byte: u8,
    freedom_value_count: int,
    slot0: int,
    weights: Seq<u64>,
    fwd: Seq<u64>,
) -> Seq<SearchNode>
    decreases k,
{
    if k <= 0 {
        Seq::empty()
    } else {
        let front = spec_expanded_children(
            prev,
            k - 1,
            max_weight,
            byte,
            freedom_value_count,
            slot0,
            weights,
            fwd,
        );
        if prev[k - 1].weight as i128 <= max_weight {
            front + spec_children_of(
                prev[k - 1],
                byte,
                freedom_value_count,
                slot0 + count_admitted(prev, k - 1, max_weight),
                weights,
                fwd,
            )
        } else {
            front
        }
    }
}

/// What one expansion step appends to the arena: a copy of each parent
/// within the threshold, state and weight zeroed, in frontier order.
pub open spec fn spec_retained(prev: Seq<SearchNode>, k: int, max_weight: i128) -> Seq<SearchNode>
    decreases k,
{
    if k <= 0 {
        Seq::empty()
    } else {
        let front = spec_retained(prev, k - 1, max_weight);
        if prev[k - 1].weight as i128 <= max_weight {
            front.push(
                SearchNode {
                    parent_index: prev[k - 1].parent_index,
                    encoded_byte: prev[k - 1].encoded_byte,
                    state: 0,
                    weight: 0,
                },
            )
        } else {
            front
        }
    }
}

/// The per-step weight table: the cost of each possible code byte.
pub open spec fn spec_step_weights(zero: Seq<u64>, one: Seq<u64>, step: int) -> Seq<u64> {
    Seq::new(256, |v: int| spec_byte_weight(zero, one, step, v as u8) as u64)
}

/// The beam between steps: the live frontier, the arena of retained
/// parents, and the threshold and minimum computed from the frontier.
pub struct BeamState {
    pub frontier: Seq<SearchNode>,
    pub arena: Seq<SearchNode>,
    pub max_weight: i128,
    pub min_weight: u64,
}

/// Before the first step: one root node over the starting arena, with the
/// threshold at one and the minimum at zero.
pub open spec fn spec_beam_init(arena0: Seq<SearchNode>) -> BeamState {
    BeamState {
        frontier: seq![
            SearchNode { parent_index: Option::None, encoded_byte: 0, state: 0, weight: 0 },
        ],
        arena: arena0,
        max_weight: 1,
        min_weight: 0,
    }
}

/// One full beam step: expand the surviving frontier against the step's
/// weights and template, retain the parents, then re-derive the threshold
/// and minimum from the new frontier.
pub open spec fn spec_beam_step(
    state: BeamState,
    msg: Seq<u8>,
    zero: Seq<u64>,
    one: Seq<u64>,
    freedom_bit_count: u8,
    fwd: Seq<u64>,
    step: int,
) -> BeamState {
    let weights = spec_step_weights(zero, one, step);
    let byte = spec_template(msg, freedom_bit_count, step);
    let children = spec_expanded_children(
        state.frontier,
        state.frontier.len() as int,
        state.max_weight,
        byte,
        (1u8 << freedom_bit_count) as int,
        state.arena.len() as int,
        weights,
        fwd,
    );
    BeamState {
        frontier: children,
        arena: state.arena + spec_retained(
            state.frontier,
            state.frontier.len() as int,
            state.max_weight,
        ),
        max_weight: spec_prune_threshold(children, freedom_bit_count),
        min_weight: spec_min_weight(children),
    }
}

/// The beam after `step` steps from the root.
pub open spec fn spec_beam_at(
    arena0: Seq<SearchNode>,
    msg: Seq<u8>,
    zero: Seq<u64>,
    one: Seq<u64>,
    freedom_bit_count: u8,
    fwd: Seq<u64>,
    step: int,
) -> BeamState
    decreases step,
{
    if step <= 0 {
        spec_beam_init(arena0)
    } else {
        spec_beam_step(
            spec_beam_at(arena0, msg, zero, one, freedom_bit_count, fwd, step - 1),
            msg,
            zero,
            one,
            freedom_bit_count,
            fwd,
            step - 1,
        )
    }
}

/// An empty frontier stays empty: later steps expand nothing and append
/// nothing to the arena.
pub proof fn lemma_beam_stays_empty(
    arena0: Seq<SearchNode>,
    msg: Seq<u8>,
    zero: Seq<u64>,
    one: Seq<u64>,
    freedom_bit_count: u8,
    fwd: Seq<u64>,
    s1: int,
    s2: int,
)
    requires
        0 <= s1 <= s2,
        spec_beam_at(arena0, msg, zero, one, freedom_bit_count, fwd, s1).frontier.len() == 0,
    ensures
        spec_beam_at(arena0, msg, zero, one, freedom_bit_count, fwd, s2).frontier.len() == 0,
        spec_beam_at(arena0, msg, zero, one, freedom_bit_count, fwd, s2).arena == spec_beam_at(
            arena0,
            msg,
            zero,
            one,
            freedom_bit_count,
            fwd,
            s1,
        ).arena,
    decreases s2,
{
    if s2 > s1 {
        lemma_beam_stays_empty(arena0, msg, zero, one, freedom_bit_count, fwd, s1, s2 - 1);
        let prev = spec_beam_at(arena0, msg, zero, one, freedom_bit_count, fwd, s2 - 1);
        let next = spec_beam_at(arena0, msg, zero, one, freedom_bit_count, fwd, s2);
        assert(next.arena =~= prev.arena);
    }
}

/// The first frontier index holding the minimal weight: the deterministic
/// tie-break of the final selection.
pub open spec fn spec_first_min_index(nodes: Seq<SearchNode>, k: int) -> int
    decreases nodes.len() - k,
{
    if k < 0 || k >= nodes.len() {
        k
    } else if nodes[k].weight == spec_min_weight(nodes) {
        k
    } else {
        spec_first_min_index(nodes, k + 1)
    }
}

proof fn lemma_first_min_from(nodes: Seq<SearchNode>, k: int)
    requires
        0 <= k <= nodes.len(),
        exists|j: int| k <= j < nodes.len() && #[trigger] nodes[j].weight == spec_min_weight(nodes),
    ensures
        k <= spec_first_min_index(nodes, k) < nodes.len(),
        nodes[spec_first_min_index(nodes, k)].weight == spec_min_weight(nodes),
        forall|q: int|
            k <= q < spec_first_min_index(nodes, k) ==> #[trigger] nodes[q].weight
                != spec_min_weight(nodes),
    decreases nodes.len() - k,
{
    if nodes[k].weight != spec_min_weight(nodes) {
        let j = choose|j: int|
            k <= j < nodes.len() && #[trigger] nodes[j].weight == spec_min_weight(nodes);
        assert(k + 1 <= j < nodes.len() && nodes[j].weight == spec_min_weight(nodes));
        lemma_first_min_from(nodes, k + 1);
    }
}

/// The final selection is minimal and deterministic: the chosen index holds
/// the least weight of the surviving frontier, and every earlier frontier
/// node weighs strictly more than the minimum.
pub proof fn lemma_first_min_selects_minimum(nodes: Seq<SearchNode>)
    requires
        nodes.len() > 0,
    ensures
        0 <= spec_first_min_index(nodes, 0) < nodes.len(),
        nodes[spec_first_min_index(nodes, 0)].weight == spec_min_weight(nodes),
        forall|q: int|
            0 <= q < spec_first_min_index(nodes, 0) ==> #[trigger] nodes[q].weight
                != spec_min_weight(nodes),
        forall|q: int|
            0 <= q < nodes.len() ==> nodes[spec_first_min_index(nodes, 0)].weight
                <= #[trigger] nodes[q].weight,
{
    let j = lemma_min_weight_attained(nodes);
    lemma_first_min_from(nodes, 0);
    assert forall|q: int|
        0 <= q < nodes.len() implies nodes[spec_first_min_index(nodes, 0)].weight
        <= #[trigger] nodes[q].weight by {
        lemma_min_max_weight_bounds(nodes, q);
    }
}

/// The exact result of one encode: the path read off the arena from the
/// first minimum-weight node of the final frontier. The whole search is a
/// function of its inputs, so equal tables, message, weights, capacity and
/// freedom bits give identical output.
pub open spec fn spec_best_encoding(
    arena0: Seq<SearchNode>,
    msg: Seq<u8>,
    zero: Seq<u64>,
    one: Seq<u64>,
    freedom_bit_count: u8,
    fwd: Seq<u64>,
    capacity: int,
) -> Seq<u8> {
    let state = spec_beam_at(arena0, msg, zero, one, freedom_bit_count, fwd, capacity);
    if state.frontier.len() == 0 {
        Seq::empty()
    } else {
        let chosen = state.frontier[spec_first_min_index(state.frontier, 0)];
        node_path(state.arena, chosen, capacity)
    }
}

/// The fatal empty-frontier failure: the pruning threshold fell below every
/// surviving weight at some step, so the final frontier is empty and the
/// encode returns the empty stream.
pub open spec fn spec_beam_collapsed(
    msg: Seq<u8>,
    zero: Seq<u64>,
    one: Seq<u64>,
    freedom_bit_count: u8,
    fwd: Seq<u64>,
    capacity: int,
) -> bool {
    spec_beam_at(Seq::empty(), msg, zero, one, freedom_bit_count, fwd, capacity).frontier.len()
        == 0
}

proof fn lemma_template_prefix_agrees(
    msg1: Seq<u8>,
    msg2: Seq<u8>,
    freedom_bit_count: u8,
    step: int,
    j: int,
)
    requires
        freedom_bit_count <= 7,
        0 <= step,
        0 <= j <= 8 - freedom_bit_count,
        forall|g: int|
            step * (8 - freedom_bit_count as int) <= g < step * (8 - freedom_bit_count as int) + j
                ==> stream_bit(msg1, g) == stream_bit(msg2, g),
    ensures
        template_prefix(msg1, freedom_bit_count, step, j) == template_prefix(
            msg2,
            freedom_bit_count,
            step,
            j,
        ),
    decreases j,
{
    if j > 0 {
        lemma_template_prefix_agrees(msg1, msg2, freedom_bit_count, step, j - 1);
    }
}

/// Two messages agreeing on every bit the capacity carries drive the beam
/// identically: the encode output depends on nothing past those bits, so a
/// message tail beyond the capacity is simply lost.
proof fn lemma_beam_states_agree(
    arena0: Seq<SearchNode>,
    msg1: Seq<u8>,
    msg2: Seq<u8>,
    zero: Seq<u64>,
    one: Seq<u64>,
    freedom_bit_count: u8,
    fwd: Seq<u64>,
    capacity: int,
    step: int,
)
    requires
        freedom_bit_count <= 7,
        0 <= step <= capacity,
        forall|g: int|
            0 <= g < capacity * (8 - freedom_bit_count as int) ==> stream_bit(msg1, g)
                == stream_bit(msg2, g),
    ensures
        spec_beam_at(arena0, msg1, zero, one, freedom_bit_count, fwd, step) == spec_beam_at(
            arena0,
            msg2,
            zero,
            one,
            freedom_bit_count,
            fwd,
            step,
        ),
    decreases step,
{
    if step > 0 {
        lemma_beam_states_agree(
            arena0,
            msg1,
            msg2,
            zero,
            one,
            freedom_bit_count,
            fwd,
            capacity,
            step - 1,
        );
        let width = 8 - freedom_bit_count as int;
        assert((step - 1) * width + width <= capacity * width) by (nonlinear_arith)
            requires
                1 <= step <= capacity,
                width >= 0,
        ;
        assert forall|g: int|
            (step - 1) * width <= g < (step - 1) * width + width implies stream_bit(msg1, g)
            == stream_bit(msg2, g) by {
            assert((step - 1) * width >= 0) by (nonlinear_arith)
                requires
                    step >= 1,
                    width >= 0,
            ;
        }
        lemma_template_prefix_agrees(msg1, msg2, freedom_bit_count, step - 1, width);
        assert(spec_template(msg1, freedom_bit_count, step - 1) == spec_template(
            msg2,
            freedom_bit_count,
            step - 1,
        ));
    }
}

/// Encoding ignores the message past the capacity: two messages that agree
/// on the first `capacity * (8 - F)` bits produce the same code stream.
pub proof fn lemma_encode_ignores_message_tail(
    arena0: Seq<SearchNode>,
    msg1: Seq<u8>,
    msg2: Seq<u8>,
    zero: Seq<u64>,
    one: Seq<u64>,
    freedom_bit_count: u8,
    fwd: Seq<u64>,
    capacity: int,
)
    requires
        freedom_bit_count <= 7,
        0 <= capacity,
        forall|g: int|
            0 <= g < capacity * (8 - freedom_bit_count as int) ==> stream_bit(msg1, g)
                == stream_bit(msg2, g),
    ensures
        spec_best_encoding(arena0, msg1, zero, one, freedom_bit_count, fwd, capacity)
            == spec_best_encoding(arena0, msg2, zero, one, freedom_bit_count, fwd, capacity),
{
    lemma_beam_states_agree(
        arena0,
        msg1,
        msg2,
        zero,
        one,
        freedom_bit_count,
        fwd,
        capacity,
        capacity,
    );
}

pub struct SearchTree<'a> {
    search_history: Vec<SearchNode>,
    config: &'a Config<'a>,
    search_index: usize,
}

impl<'a> SearchTree<'a> {
    pub closed spec fn arena(&self) -> Seq<SearchNode> {
        self.search_history@
    }

    pub closed spec fn freedom(&self) -> u8 {
        self.config.freedom_bit_count
    }

    pub closed spec fn capacity(&self) -> u64 {
        self.config.encoding_capacity
    }

    pub closed spec fn fwd(&self) -> Seq<u64> {
        self.config.encoding_method.fwd()
    }

    pub closed spec fn rev(&self) -> Seq<u64> {
        self.config.encoding_method.rev()
    }

    pub closed spec fn zero_weights(&self) -> Seq<u64> {
        self.config.zero_bit_weights@
    }

    pub closed spec fn one_weights(&self) -> Seq<u64> {
        self.config.one_bit_weights@
    }

    pub closed spec fn wf(&self) -> bool {
        &&& self.search_index == self.arena().len()
        &&& self.config.wf()
    }

    pub fn new(config: &'a Config<'a>) -> (tree: SearchTree<'a>)
        requires
            config.wf(),
        ensures
            tree.wf(),
            tree.arena().len() == 0,
            tree.freedom() == config.freedom_bit_count,
            tree.capacity() == config.encoding_capacity,
            tree.fwd() == config.encoding_method.fwd(),
            tree.rev() == config.encoding_method.rev(),
            tree.zero_weights() == config.zero_bit_weights@,
            tree.one_weights() == config.one_bit_weights@,
            tree.freedom() == config.freedom_bit_count,
    {
        SearchTree { search_history: Vec::new(), search_index: 0, config }
    }

    fn get_encoding_node(&self, node: &SearchNode, weights: &Vec<u64>, byte: u8) -> (child:
        SearchNode)
        requires
            self.wf(),
            weights@.len() == 256,
            forall|v: int| 0 <= v < 256 ==> #[trigger] weights@[v] <= BYTE_WEIGHT_MAX,
            node.weight <= PATH_WEIGHT_MAX,
        ensures
            is_child(
                child,
                self.fwd(),
                self.arena().len() as usize,
                *node,
                weights@,
                byte,
            ),
    {
        let (encoded_byte, new_state) = self.config.encoding_method.encode_byte(byte, node.state);

        SearchNode::new(
            Some(self.search_index),
            encoded_byte,
            new_state,
            node.weight + weights[encoded_byte as usize],
        )
    }

    /// One step of the beam: every parent whose cumulative weight is within
    /// the threshold is copied into the arena and spawns `2^F` children, one
    /// per freedom value OR-ed into the step's template byte.
    #[verifier::loop_isolation(false)]
    #[verifier::rlimit(100)]
    pub fn expand_tree(
        &mut self,
        prev_nodes: &Vec<SearchNode>,
        weights: &Vec<u64>,
        max_weight: i128,
        byte: u8,
        Ghost(templates): Ghost<Seq<u8>>,
        Ghost(step): Ghost<int>,
    ) -> (new_nodes: Vec<SearchNode>)
        requires
            old(self).wf(),
            weights@.len() == 256,
            forall|v: int| 0 <= v < 256 ==> #[trigger] weights@[v] <= BYTE_WEIGHT_MAX,
            step >= 0,
            templates.len() >= step + 1,
            templates[step] == byte,
            byte & (((1u8 << old(self).freedom()) - 1) as u8) == 0,
            forall|k: int|
                0 <= k < prev_nodes@.len() ==> node_ok(
                    old(self).arena(),
                    old(self).fwd(),
                    old(self).rev(),
                    templates,
                    old(self).freedom(),
                    step,
                    #[trigger] prev_nodes@[k],
                ),
            forall|k: int| 0 <= k < prev_nodes@.len() ==> #[trigger] prev_nodes@[k].weight
                <= PATH_WEIGHT_MAX,
        ensures
            final(self).wf(),
            final(self).freedom() == old(self).freedom(),
            final(self).capacity() == old(self).capacity(),
            final(self).fwd() == old(self).fwd(),
            final(self).rev() == old(self).rev(),
            final(self).config_unchanged(*old(self)),
            old(self).arena().is_prefix_of(final(self).arena()),
            final(self).arena().len() == old(self).arena().len() + count_admitted(
                prev_nodes@,
                prev_nodes@.len() as int,
                max_weight,
            ),
            new_nodes@.len() == count_admitted(prev_nodes@, prev_nodes@.len() as int, max_weight)
                * ((1u8 << old(self).freedom()) as int),
            new_nodes@ == spec_expanded_children(
                prev_nodes@,
                prev_nodes@.len() as int,
                max_weight,
                byte,
                (1u8 << old(self).freedom()) as int,
                old(self).arena().len() as int,
                weights@,
                old(self).fwd(),
            ),
            final(self).arena() == old(self).arena() + spec_retained(
                prev_nodes@,
                prev_nodes@.len() as int,
                max_weight,
            ),
            forall|k: int|
                0 <= k < new_nodes@.len() ==> node_ok(
                    final(self).arena(),
                    final(self).fwd(),
                    final(self).rev(),
                    templates,
                    final(self).freedom(),
                    step + 1,
                    #[trigger] new_nodes@[k],
                ),
            forall|k: int|
                0 <= k < new_nodes@.len() ==> spec_min_weight(prev_nodes@) <= #[trigger] new_nodes@[k].weight
                    <= spec_max_weight(prev_nodes@) + BYTE_WEIGHT_MAX,
            prev_nodes@.len() > 0 && new_nodes@.len() > 0 ==> spec_min_weight(new_nodes@)
                >= spec_min_weight(prev_nodes@),
    {
        let ghost f = self.config.freedom_bit_count;
        let ghost fvc = (1u8 << self.config.freedom_bit_count) as int;
        let freedom_value_count: u8 = 1u8 << self.config.freedom_bit_count;
        let mut new_nodes: Vec<SearchNode> = Vec::new();
        let prev_len = prev_nodes.len();
        proof {
            assert(new_nodes@ =~= spec_expanded_children(
                prev_nodes@,
                0,
                max_weight,
                byte,
                fvc,
                old(self).arena().len() as int,
                weights@,
                self.fwd(),
            ));
            assert(self.arena() =~= old(self).arena() + spec_retained(prev_nodes@, 0, max_weight));
        }

        for idx in 0..prev_len
            invariant
                self.wf(),
                self.config == old(self).config,
                old(self).arena().is_prefix_of(self.arena()),
                self.arena().len() == old(self).arena().len() + count_admitted(
                    prev_nodes@,
                    idx as int,
                    max_weight,
                ),
                new_nodes@.len() == count_admitted(prev_nodes@, idx as int, max_weight) * fvc,
                new_nodes@ == spec_expanded_children(
                    prev_nodes@,
                    idx as int,
                    max_weight,
                    byte,
                    fvc,
                    old(self).arena().len() as int,
                    weights@,
                    self.fwd(),
                ),
                self.arena() == old(self).arena() + spec_retained(
                    prev_nodes@,
                    idx as int,
                    max_weight,
                ),
                forall|k: int|
                    0 <= k < prev_nodes@.len() ==> node_ok(
                        self.arena(),
                        self.fwd(),
                        self.rev(),
                        templates,
                        f,
                        step,
                        #[trigger] prev_nodes@[k],
                    ),
                forall|k: int|
                    0 <= k < new_nodes@.len() ==> node_ok(
                        self.arena(),
                        self.fwd(),
                        self.rev(),
                        templates,
                        f,
                        step + 1,
                        #[trigger] new_nodes@[k],
                    ),
                forall|k: int|
                    0 <= k < new_nodes@.len() ==> spec_min_weight(prev_nodes@)
                        <= #[trigger] new_nodes@[k].weight <= spec_max_weight(prev_nodes@)
                        + BYTE_WEIGHT_MAX,
        {
            let prev_node = &prev_nodes[idx];
            if prev_node.weight as i128 <= max_weight {
                let ghost arena_before = self.arena();
                let ghost children_before = new_nodes@;
                let ghost slot = self.search_history.len() as usize;
                // The children reference the arena slot their parent's copy
                // is about to fill.
                for fv in 0..freedom_value_count
                    invariant
                        self.wf(),
                        self.config == old(self).config,
                        self.arena() == arena_before,
                        new_nodes@.len() == children_before.len() + fv,
                        new_nodes@.take(children_before.len() as int) == children_before,
                        forall|k: int|
                            0 <= k < fv ==> is_child(
                                #[trigger] new_nodes@[children_before.len() + k],
                                self.fwd(),
                                slot,
                                prev_nodes@[idx as int],
                                weights@,
                                (byte + k) as u8,
                            ),
                {
                    proof {
                        lemma_freedom_merge(byte, fv, f);
                    }
                    let modified_byte = byte + fv;
                    let child = self.get_encoding_node(prev_node, weights, modified_byte);
                    new_nodes.push(child);
                    proof {
                        assert(new_nodes@.take(children_before.len() as int) =~= children_before);
                    }
                }
                let saved_node = SearchNode::new(prev_node.parent_index, prev_node.encoded_byte, 0, 0);
                self.search_history.push(saved_node);
                self.search_index = self.search_history.len();

                proof {
                    let arena_now = self.arena();
                    let prev = prev_nodes@[idx as int];
                    assert(arena_now == arena_before.push(saved_node));
                    assert(arena_now[slot as int] == saved_node);
                    assert forall|k: int| 0 <= k < prev_nodes@.len() implies node_ok(
                        arena_now,
                        self.fwd(),
                        self.rev(),
                        templates,
                        f,
                        step,
                        #[trigger] prev_nodes@[k],
                    ) by {
                        if step > 0 {
                            lemma_chain_extend(
                                arena_before,
                                arena_now,
                                prev_nodes@[k].parent_index,
                                step - 1,
                            );
                        }
                    }
                    // the parent's path is unchanged by the push and equals
                    // the chain through the new slot
                    let prev_path: Seq<u8> = if step == 0 {
                        Seq::empty()
                    } else {
                        node_path(arena_before, prev, step)
                    };
                    if step > 0 {
                        lemma_chain_extend(arena_before, arena_now, prev.parent_index, step - 1);
                        lemma_chain_len(arena_now, prev.parent_index, step - 1);
                        assert(chain_bytes(arena_now, Option::Some(slot), step) == chain_bytes(
                            arena_now,
                            saved_node.parent_index,
                            step - 1,
                        ).push(saved_node.encoded_byte));
                        assert(chain_bytes(arena_now, Option::Some(slot), step) == prev_path);
                        assert(chain_wf(arena_now, Option::Some(slot), step));
                    } else {
                        assert(chain_bytes(arena_now, Option::Some(slot), step) =~= prev_path);
                    }
                    assert(spec_decode_stream(self.fwd(), self.rev(), prev_path, 0).1 == prev.state);
                    assert(prev_path.len() == step) by {
                        if step > 0 {
                            lemma_chain_len(arena_before, prev.parent_index, step - 1);
                        }
                    }
                    // previously built children keep their meaning under the
                    // grown arena
                    assert forall|k: int| 0 <= k < children_before.len() implies node_ok(
                        arena_now,
                        self.fwd(),
                        self.rev(),
                        templates,
                        f,
                        step + 1,
                        #[trigger] new_nodes@[k],
                    ) by {
                        assert(new_nodes@[k] == children_before[k]);
                        assert(node_ok(
                            arena_before,
                            self.fwd(),
                            self.rev(),
                            templates,
                            f,
                            step + 1,
                            children_before[k],
                        ));
                        lemma_chain_extend(
                            arena_before,
                            arena_now,
                            children_before[k].parent_index,
                            step,
                        );
                    }
                    // the fresh children are valid beam nodes one step deeper
                    assert forall|k: int|
                        children_before.len() <= k < new_nodes@.len() implies node_ok(
                        arena_now,
                        self.fwd(),
                        self.rev(),
                        templates,
                        f,
                        step + 1,
                        #[trigger] new_nodes@[k],
                    ) by {
                        let kk = k - children_before.len();
                        let fv = kk as u8;
                        assert(fv < freedom_value_count);
                        lemma_freedom_merge(byte, fv, f);
                        let plain = (byte + fv) as u8;
                        let child = new_nodes@[k];
                        assert(is_child(
                            new_nodes@[children_before.len() + kk],
                            self.fwd(),
                            slot,
                            prev_nodes@[idx as int],
                            weights@,
                            (byte + kk) as u8,
                        ));
                        assert(is_child(child, self.fwd(), slot, prev, weights@, plain));
                        let child_path = node_path(arena_now, child, step + 1);
                        assert(child_path == prev_path.push(child.encoded_byte));
                        assert(child_path.drop_last() =~= prev_path);
                        lemma_byte_round_trip(self.fwd(), self.rev(), plain, prev.state);
                        let dec = spec_decode_stream(self.fwd(), self.rev(), child_path, 0);
                        assert(dec.1 == child.state);
                        let prev_plains = spec_decode_stream(self.fwd(), self.rev(), prev_path, 0).0;
                        assert(dec.0 == prev_plains.push(plain));
                        super::lemma_decode_stream_len(self.fwd(), self.rev(), prev_path, 0);
                        assert forall|q: int| 0 <= q < child_path.len() implies (#[trigger] dec.0[q]
                            >> f) == (templates[q] >> f) by {
                            if q < step {
                                assert(prev_plains[q] >> f == templates[q] >> f);
                            } else {
                                assert(q == step);
                                assert(dec.0[q] == plain);
                                assert((plain >> f) == (byte >> f));
                            }
                        }
                        assert(path_matches(self.fwd(), self.rev(), child_path, templates, f));
                        if step + 1 > 0 {
                            assert(chain_wf(arena_now, child.parent_index, step));
                        }
                    }
                    assert(count_admitted(prev_nodes@, idx as int + 1, max_weight) == count_admitted(
                        prev_nodes@,
                        idx as int,
                        max_weight,
                    ) + 1);
                    assert(new_nodes@.len() == (count_admitted(prev_nodes@, idx as int, max_weight)
                        + 1) * fvc) by (nonlinear_arith)
                        requires
                            new_nodes@.len() == count_admitted(prev_nodes@, idx as int, max_weight)
                                * fvc + fvc,
                    ;
                    // the fresh chunk is exactly the spec children of this parent
                    let chunk = spec_children_of(
                        prev_nodes@[idx as int],
                        byte,
                        fvc,
                        slot as int,
                        weights@,
                        self.fwd(),
                    );
                    assert forall|fv: int| 0 <= fv < fvc implies #[trigger] new_nodes@[
                        children_before.len() + fv
                    ] == chunk[fv] by {
                        assert(is_child(
                            new_nodes@[children_before.len() + fv],
                            self.fwd(),
                            slot,
                            prev_nodes@[idx as int],
                            weights@,
                            (byte + fv) as u8,
                        ));
                    }
                    assert(slot as int == old(self).arena().len() + count_admitted(
                        prev_nodes@,
                        idx as int,
                        max_weight,
                    ));
                    assert forall|q: int| 0 <= q < new_nodes@.len() implies new_nodes@[q] == (
                    children_before + chunk)[q] by {
                        if q >= children_before.len() {
                            let fv = q - children_before.len();
                            assert(new_nodes@[children_before.len() + fv] == chunk[fv]);
                        }
                    }
                    assert(new_nodes@ =~= children_before + chunk);
                    assert(new_nodes@ =~= spec_expanded_children(
                        prev_nodes@,
                        idx as int + 1,
                        max_weight,
                        byte,
                        fvc,
                        old(self).arena().len() as int,
                        weights@,
                        self.fwd(),
                    ));
                    assert(arena_now =~= old(self).arena() + spec_retained(
                        prev_nodes@,
                        idx as int + 1,
                        max_weight,
                    ));
                    // every child's weight stays between the frontier
                    // minimum and the frontier maximum plus one byte weight
                    assert forall|k: int|
                        0 <= k < new_nodes@.len() implies spec_min_weight(prev_nodes@)
                        <= #[trigger] new_nodes@[k].weight <= spec_max_weight(prev_nodes@)
                        + BYTE_WEIGHT_MAX by {
                        if k < children_before.len() {
                            assert(new_nodes@[k] == children_before[k]);
                            assert(spec_min_weight(prev_nodes@) <= children_before[k].weight
                                <= spec_max_weight(prev_nodes@) + BYTE_WEIGHT_MAX);
                        } else {
                            let kk = k - children_before.len();
                            let fv = kk as u8;
                            lemma_freedom_merge(byte, fv, f);
                            assert(is_child(
                                new_nodes@[children_before.len() + kk],
                                self.fwd(),
                                slot,
                                prev_nodes@[idx as int],
                                weights@,
                                (byte + kk) as u8,
                            ));
                            lemma_min_max_weight_bounds(prev_nodes@, idx as int);
                        }
                    }
                }
            } else {
                proof {
                    assert(count_admitted(prev_nodes@, idx as int + 1, max_weight) == count_admitted(
                        prev_nodes@,
                        idx as int,
                        max_weight,
                    ));
                }
            }
        }
        proof {
            if prev_nodes@.len() > 0 && new_nodes@.len() > 0 {
                lemma_min_weight_ge(new_nodes@, spec_min_weight(prev_nodes@));
            }
        }
        new_nodes
    }

    /// Drives the beam over every codec step and returns the best final
    /// node, its state and weight zeroed: only its back pointer and encoded
    /// byte are read afterwards. The pruning threshold never falls below
    /// the frontier minimum, so the frontier never empties and a node is
    /// always found.
    #[verifier::loop_isolation(false)]
    #[verifier::rlimit(100)]
    fn construct_search_tree_approx(&mut self, message: &Vec<u8>) -> (best: Option<SearchNode>)
        requires
            old(self).wf(),
        ensures
            final(self).wf(),
            final(self).config_unchanged(*old(self)),
            final(self).fwd() == old(self).fwd(),
            final(self).rev() == old(self).rev(),
            (best is Some) <==> spec_beam_at(
                old(self).arena(),
                message@,
                old(self).zero_weights(),
                old(self).one_weights(),
                old(self).freedom(),
                old(self).fwd(),
                old(self).capacity() as int,
            ).frontier.len() > 0,
            final(self).arena() == spec_beam_at(
                old(self).arena(),
                message@,
                old(self).zero_weights(),
                old(self).one_weights(),
                old(self).freedom(),
                old(self).fwd(),
                old(self).capacity() as int,
            ).arena,
            (best matches Some(node) ==> ({
                let state = spec_beam_at(
                    old(self).arena(),
                    message@,
                    old(self).zero_weights(),
                    old(self).one_weights(),
                    old(self).freedom(),
                    old(self).fwd(),
                    old(self).capacity() as int,
                );
                let chosen = state.frontier[spec_first_min_index(state.frontier, 0)];
                node.parent_index == chosen.parent_index && node.encoded_byte
                    == chosen.encoded_byte
            })),
            (best matches Some(node) ==> selected_node_ok(
                final(self).arena(),
                old(self).fwd(),
                old(self).rev(),
                message@,
                old(self).freedom(),
                old(self).capacity() as int,
                node,
            )),
    {
        let encoding_capacity = self.config.encoding_capacity;
        let freedom_bit_count = self.config.freedom_bit_count;

        let mut prev_search: Vec<SearchNode> = Vec::new();
        prev_search.push(SearchNode::new(None, 0, 0, 0));

        let mut max_weight: i128 = 1;
        let mut min_weight: u64 = 0;
        let ghost mut templates: Seq<u8> = Seq::empty();
        let ghost arena0 = self.arena();
        let ghost zero0 = self.config.zero_bit_weights@;
        let ghost one0 = self.config.one_bit_weights@;
        let ghost fwd0 = self.fwd();
        proof {
            let state0 = spec_beam_at(
                arena0,
                message@,
                zero0,
                one0,
                freedom_bit_count,
                fwd0,
                0,
            );
            assert(prev_search@ =~= state0.frontier);
        }

        let mut step: u64 = 0;
        while step < encoding_capacity
            invariant
                self.wf(),
                self.config == old(self).config,
                0 <= step <= encoding_capacity,
                prev_search@ == spec_beam_at(
                    arena0,
                    message@,
                    zero0,
                    one0,
                    freedom_bit_count,
                    fwd0,
                    step as int,
                ).frontier,
                self.arena() == spec_beam_at(
                    arena0,
                    message@,
                    zero0,
                    one0,
                    freedom_bit_count,
                    fwd0,
                    step as int,
                ).arena,
                max_weight == spec_beam_at(
                    arena0,
                    message@,
                    zero0,
                    one0,
                    freedom_bit_count,
                    fwd0,
                    step as int,
                ).max_weight,
                min_weight == spec_beam_at(
                    arena0,
                    message@,
                    zero0,
                    one0,
                    freedom_bit_count,
                    fwd0,
                    step as int,
                ).min_weight,
                templates.len() == step,
                forall|k: int|
                    0 <= k < step ==> #[trigger] templates[k] == spec_template(
                        message@,
                        freedom_bit_count,
                        k,
                    ),
                prev_search@.len() > 0,
                forall|k: int|
                    0 <= k < prev_search@.len() ==> node_ok(
                        self.arena(),
                        self.fwd(),
                        self.rev(),
                        templates,
                        freedom_bit_count,
                        step as int,
                        #[trigger] prev_search@[k],
                    ),
                forall|k: int|
                    0 <= k < prev_search@.len() ==> #[trigger] prev_search@[k].weight <= step
                        * BYTE_WEIGHT_MAX,
                step >= 1 ==> min_weight == spec_min_weight(prev_search@),
            decreases encoding_capacity - step,
        {
            proof {
                assert(8 * (step as int) + 8 <= self.config.zero_bit_weights@.len());
            }
            let byte_weights = calculate_byte_value_weights_for_step(
                self.config.zero_bit_weights,
                self.config.one_bit_weights,
                step as usize,
            );
            let bits_to_encode = build_template(message, freedom_bit_count, step);
            proof {
                lemma_template_low_mask(message@, freedom_bit_count, step as int);
            }
            let ghost new_templates = templates.push(bits_to_encode);
            proof {
                assert forall|k: int| 0 <= k < prev_search@.len() implies node_ok(
                    self.arena(),
                    self.fwd(),
                    self.rev(),
                    new_templates,
                    freedom_bit_count,
                    step as int,
                    #[trigger] prev_search@[k],
                ) by {
                    if step > 0 {
                        lemma_chain_len(
                            self.arena(),
                            prev_search@[k].parent_index,
                            step as int - 1,
                        );
                    }
                }
                assert forall|k: int|
                    0 <= k < prev_search@.len() implies #[trigger] prev_search@[k].weight
                    <= PATH_WEIGHT_MAX by {
                    assert(step * BYTE_WEIGHT_MAX <= 0x1_0000_0000 * 0x800_0000)
                        by (nonlinear_arith)
                        requires
                            0 <= step <= 0x1_0000_0000,
                    ;
                }
            }
            let expanded = self.expand_tree(
                &prev_search,
                &byte_weights,
                max_weight,
                bits_to_encode,
                Ghost(new_templates),
                Ghost(step as int),
            );
            let ghost prev_view = prev_search@;
            prev_search = expanded;
            proof {
                templates = new_templates;
                // the step is exactly the spec-level beam step
                let state = spec_beam_at(
                    arena0,
                    message@,
                    zero0,
                    one0,
                    freedom_bit_count,
                    fwd0,
                    step as int,
                );
                let next = spec_beam_at(
                    arena0,
                    message@,
                    zero0,
                    one0,
                    freedom_bit_count,
                    fwd0,
                    step as int + 1,
                );
                assert(next == spec_beam_step(
                    state,
                    message@,
                    zero0,
                    one0,
                    freedom_bit_count,
                    fwd0,
                    step as int,
                ));
                assert forall|v: int|
                    0 <= v < 256 implies #[trigger] byte_weights@[v] == spec_step_weights(
                    zero0,
                    one0,
                    step as int,
                )[v] by {
                    assert(byte_weights@[v] == spec_byte_weight(zero0, one0, step as int, v as u8));
                }
                assert(byte_weights@ =~= spec_step_weights(zero0, one0, step as int));
                assert(prev_search@ == next.frontier);
                assert(self.arena() == next.arena);
            }
            if prev_search.len() == 0 {
                // the threshold fell below every weight: the beam collapsed
                proof {
                    lemma_beam_stays_empty(
                        arena0,
                        message@,
                        zero0,
                        one0,
                        freedom_bit_count,
                        fwd0,
                        step as int + 1,
                        encoding_capacity as int,
                    );
                }
                return None;
            }
            let minmax = calculate_minmax_weight(&prev_search, freedom_bit_count);
            max_weight = minmax.0;
            min_weight = minmax.1;
            proof {
                lemma_max_weight_le(prev_view, step * BYTE_WEIGHT_MAX);
                assert forall|k: int|
                    0 <= k < prev_search@.len() implies #[trigger] prev_search@[k].weight <= (step
                    + 1) * BYTE_WEIGHT_MAX by {
                    assert(prev_search@[k].weight <= spec_max_weight(prev_view) + BYTE_WEIGHT_MAX);
                    assert((step + 1) * BYTE_WEIGHT_MAX == step * BYTE_WEIGHT_MAX + BYTE_WEIGHT_MAX)
                        by (nonlinear_arith);
                }
            }
            step = step + 1;
        }
        let search_len = prev_search.len();
        let mut index: usize = 0;
        while index < search_len
            invariant
                0 <= index <= search_len,
                search_len == prev_search@.len(),
                forall|k: int| 0 <= k < index ==> #[trigger] prev_search@[k].weight != min_weight,
                spec_first_min_index(prev_search@, 0) == spec_first_min_index(
                    prev_search@,
                    index as int,
                ),
            decreases search_len - index,
        {
            if prev_search[index].weight == min_weight {
                let node = &prev_search[index];
                let selected = SearchNode::new(node.parent_index, node.encoded_byte, 0, 0);
                proof {
                    let cap = encoding_capacity as int;
                    let chosen = prev_search@[index as int];
                    assert(cap >= 1);
                    assert(min_weight == spec_min_weight(prev_search@));
                    assert(spec_first_min_index(prev_search@, index as int) == index as int);
                    assert(spec_first_min_index(prev_search@, 0) == index as int);
                    assert(node_ok(
                        self.arena(),
                        self.fwd(),
                        self.rev(),
                        templates,
                        freedom_bit_count,
                        cap,
                        chosen,
                    ));
                    assert(node_path(self.arena(), selected, cap) == node_path(
                        self.arena(),
                        chosen,
                        cap,
                    ));
                    let plains = spec_decode_stream(
                        self.fwd(),
                        self.rev(),
                        node_path(self.arena(), selected, cap),
                        0,
                    ).0;
                    assert forall|k: int| 0 <= k < cap implies (#[trigger] plains[k]
                        >> freedom_bit_count) == (spec_template(message@, freedom_bit_count, k)
                        >> freedom_bit_count) by {
                        lemma_chain_len(self.arena(), chosen.parent_index, cap - 1);
                        assert(templates[k] == spec_template(message@, freedom_bit_count, k));
                    }
                    assert(selected_node_ok(
                        self.arena(),
                        self.fwd(),
                        self.rev(),
                        message@,
                        freedom_bit_count,
                        cap,
                        selected,
                    ));
                    assert(self.fwd() == old(self).fwd());
                    assert(self.rev() == old(self).rev());
                }
                return Some(selected);
            }
            index = index + 1;
        }
        proof {
            let k = lemma_min_weight_attained(prev_search@);
            assert(false);
        }
        None
    }

    /// Runs the beam search and reads the winning path out of the arena:
    /// the first minimum-weight final node's encoded byte, then each
    /// ancestor's, reversed into emission order. The result is the exact
    /// value `spec_best_encoding` computes — a function of the tables, the
    /// message, the weights, the capacity and the freedom bits. It is
    /// empty exactly when the beam collapsed (the fatal empty-frontier
    /// failure); otherwise it has `encoding_capacity` bytes and decodes,
    /// step by step, to plain bytes whose high bits are the message bits.
    #[verifier::loop_isolation(false)]
    #[verifier::rlimit(60)]
    pub fn find_best_encoding(&mut self, message: &Vec<u8>) -> (encoded_message: Vec<u8>)
        requires
            old(self).wf(),
        ensures
            final(self).wf(),
            encoded_message@.len() == old(self).capacity() || encoded_message@.len() == 0,
            encoded_message@.len() == 0 <==> spec_beam_at(
                old(self).arena(),
                message@,
                old(self).zero_weights(),
                old(self).one_weights(),
                old(self).freedom(),
                old(self).fwd(),
                old(self).capacity() as int,
            ).frontier.len() == 0,
            encoded_message@.len() > 0 ==> encoded_result_ok(
                old(self).fwd(),
                old(self).rev(),
                message@,
                old(self).freedom(),
                old(self).capacity() as int,
                encoded_message@,
            ),
            encoded_message@ == spec_best_encoding(
                old(self).arena(),
                message@,
                old(self).zero_weights(),
                old(self).one_weights(),
                old(self).freedom(),
                old(self).fwd(),
                old(self).capacity() as int,
            ),
    {
        let encoding_capacity = self.config.encoding_capacity;
        let maybe_last_node = self.construct_search_tree_approx(message);

        let mut encoded_message: Vec<u8> = Vec::new();
        if let Some(last_node) = maybe_last_node {
            let ghost arena = self.arena();
            let ghost cap = encoding_capacity as int;
            let ghost path = node_path(arena, last_node, cap);
            proof {
                lemma_chain_len(arena, last_node.parent_index, cap - 1);
                assert(path.len() == cap);
                assert(path[cap - 1] == last_node.encoded_byte);
                assert(chain_bytes(arena, last_node.parent_index, cap - 1) == path.subrange(
                    0,
                    cap - 1,
                )) by {
                    assert(path.subrange(0, cap - 1) =~= chain_bytes(
                        arena,
                        last_node.parent_index,
                        cap - 1,
                    ));
                }
            }
            encoded_message.push(last_node.encoded_byte);
            let mut maybe_index = last_node.parent_index;
            let mut count: u64 = 1;
            while count < encoding_capacity
                invariant
                    1 <= count <= encoding_capacity,
                    encoded_message@.len() == count,
                    chain_wf(arena, maybe_index, cap - count),
                    chain_bytes(arena, maybe_index, cap - count) == path.subrange(0, cap - count),
                    forall|i: int|
                        0 <= i < count ==> #[trigger] encoded_message@[i] == path[cap - 1 - i],
                decreases encoding_capacity - count,
            {
                let index = if let Some(index) = maybe_index {
                    index
                } else {
                    proof {
                        assert(false);
                    }
                    vstd::pervasive::unreached()
                };
                let node = &self.search_history[index];
                encoded_message.push(node.encoded_byte);
                proof {
                    let d = cap - count;
                    lemma_chain_len(arena, arena[index as int].parent_index, d - 1);
                    assert(path.subrange(0, d).last() == path[d - 1]);
                    assert(arena[index as int].encoded_byte == path[d - 1]);
                    assert(chain_bytes(arena, arena[index as int].parent_index, d - 1)
                        =~= path.subrange(0, d - 1));
                }
                maybe_index = node.parent_index;
                count = count + 1;
            }
            let total = encoded_message.len();
            let mut reversed: Vec<u8> = Vec::new();
            let mut i2: usize = 0;
            while i2 < total
                invariant
                    0 <= i2 <= total,
                    total == cap,
                    total == encoded_message@.len(),
                    reversed@.len() == i2,
                    forall|q: int| 0 <= q < i2 ==> #[trigger] reversed@[q] == path[q],
                    forall|i: int|
                        0 <= i < total ==> #[trigger] encoded_message@[i] == path[cap - 1 - i],
                decreases total - i2,
            {
                reversed.push(encoded_message[total - 1 - i2]);
                i2 = i2 + 1;
            }
            proof {
                assert(reversed@ =~= path);
                let state = spec_beam_at(
                    old(self).arena(),
                    message@,
                    old(self).zero_weights(),
                    old(self).one_weights(),
                    old(self).freedom(),
                    old(self).fwd(),
                    cap,
                );
                let chosen = state.frontier[spec_first_min_index(state.frontier, 0)];
                assert(node_path(arena, last_node, cap) == node_path(state.arena, chosen, cap));
            }
            return reversed;
        }
        proof {
            assert(encoded_message@ =~= Seq::<u8>::empty());
        }
        encoded_message
    }

    pub open spec fn config_unchanged(&self, other: SearchTree<'a>) -> bool {
        self.config_spec() == other.config_spec()
    }

    pub closed spec fn config_spec(&self) -> Config<'a> {
        *self.config
    }
}

} // verus!
