//! An earlier iteration of the codec and search arena, kept for its public
//! surface: a fixed-seed table pair, a free-standing codec step over an
//! explicit table, and an arena that expands a frontier against a flat
//! 256-entry weight table.

use vstd::prelude::*;

use crate::encoder::{low_byte, spec_encode_byte, transition_tables_wf};
use crate::encoder::kt_search_tree::{
    count_admitted, is_child, spec_children_of, spec_expanded_children, spec_max_weight,
    spec_min_weight, spec_retained, BYTE_WEIGHT_MAX, PATH_WEIGHT_MAX,
};

verus! {

pub const BLOCK_SIZE: u8 = 8;

pub const STATE_COUNT: usize = 256;

pub const MASK: usize = 255;

const RNG_SEED: u64 = 1;

/// The fixed-seed table pair of this iteration.
pub fn generate_transition_function_table() -> (tables: (Vec<u64>, Vec<u64>))
    ensures
        transition_tables_wf(tables.0@, tables.1@),
        tables.0@ == crate::encoder::spec_transition_tables(1).0,
        tables.1@ == crate::encoder::spec_transition_tables(1).1,
{
    crate::encoder::generate_transition_function_table(RNG_SEED)
}

/// One codec step over an explicit forward table: the rotated next state
/// and the emitted low lane.
pub fn encode(input: (u64, u8), transition_fun_table: &Vec<u64>) -> (r: (u64, u8))
    requires
        transition_fun_table@.len() == 256,
    ensures
        r.0 == spec_encode_byte(transition_fun_table@, input.1, input.0).1,
        r.1 == spec_encode_byte(transition_fun_table@, input.1, input.0).0,
{
    let (state, byte) = input;
    let new_state = state ^ transition_fun_table[byte as usize];
    proof {
        assert(new_state as u8 == low_byte(new_state) as u8) by (bit_vector);
    }
    ((new_state >> 8) | (new_state << 56), new_state as u8)
}

#[derive(Debug)]
pub struct SearchNode {
    pub parent_index: Option<usize>,
    pub encoded_byte: u8,
    pub state: u64,
    pub weight: u64,
}

impl SearchNode {
    pub fn new(parent_index: Option<usize>, encoded_byte: u8, state: u64, weight: u64) -> (node:
        SearchNode)
        ensures
            node.parent_index == parent_index,
            node.encoded_byte == encoded_byte,
            node.state == state,
            node.weight == weight,
    {
        SearchNode { parent_index, encoded_byte, state, weight }
    }
}

/// The legacy node shape re-read as the current one, so the shared frontier
/// predicates apply to it.
pub open spec fn as_current(node: SearchNode) -> crate::encoder::kt_search_tree::SearchNode {
    crate::encoder::kt_search_tree::SearchNode {
        parent_index: node.parent_index,
        encoded_byte: node.encoded_byte,
        state: node.state,
        weight: node.weight,
    }
}

pub open spec fn as_current_seq(nodes: Seq<SearchNode>) -> Seq<
    crate::encoder::kt_search_tree::SearchNode,
> {
    nodes.map_values(|node: SearchNode| as_current(node))
}

/// The arena of this iteration: retained nodes, a flat per-code-byte weight
/// table, and the fixed-seed codec tables.
pub struct SearchHistory {
    nodes: Vec<SearchNode>,
    weights: Vec<u64>,
    transition_fun_table: Vec<u64>,
    rev_transition_fun_table: Vec<u64>,
    selected_node: usize,
}

impl SearchHistory {
    pub closed spec fn nodes_spec(&self) -> Seq<SearchNode> {
        self.nodes@
    }

    pub closed spec fn weights_spec(&self) -> Seq<u64> {
        self.weights@
    }

    pub closed spec fn fwd(&self) -> Seq<u64> {
        self.transition_fun_table@
    }

    pub closed spec fn wf(&self) -> bool {
        &&& transition_tables_wf(self.transition_fun_table@, self.rev_transition_fun_table@)
        &&& self.selected_node == self.nodes@.len()
    }

    /// The weight table holds one bounded weight per code-byte value.
    pub open spec fn weights_ready(&self) -> bool {
        &&& self.weights_spec().len() == 256
        &&& forall|v: int|
            0 <= v < 256 ==> #[trigger] self.weights_spec()[v] <= BYTE_WEIGHT_MAX
    }

    pub fn new() -> (history: SearchHistory)
        ensures
            history.wf(),
            history.nodes_spec().len() == 0,
            history.weights_spec().len() == 0,
    {
        let (trans_table, rev_trans_table) = generate_transition_function_table();
        SearchHistory {
            nodes: Vec::new(),
            weights: Vec::new(),
            transition_fun_table: trans_table,
            rev_transition_fun_table: rev_trans_table,
            selected_node: 0,
        }
    }

    pub fn get(&self, index: usize) -> (node: &SearchNode)
        requires
            index < self.nodes_spec().len(),
        ensures
            *node == self.nodes_spec()[index as int],
    {
        &self.nodes[index]
    }

    pub fn set_weights(&mut self, weights: Vec<u64>)
        ensures
            final(self).weights_spec() == weights@,
            final(self).nodes_spec() == old(self).nodes_spec(),
            final(self).fwd() == old(self).fwd(),
            final(self).wf() == old(self).wf(),
    {
        self.weights = weights;
    }

    fn get_encoding_node(&self, node: &SearchNode, byte: u8) -> (child: SearchNode)
        requires
            self.wf(),
            self.weights_ready(),
            node.weight <= PATH_WEIGHT_MAX,
        ensures
            is_child(
                as_current(child),
                self.fwd(),
                self.nodes_spec().len() as usize,
                as_current(*node),
                self.weights_spec(),
                byte,
            ),
    {
        let (new_state, encoded_byte) = encode((node.state, byte), &self.transition_fun_table);

        SearchNode::new(
            Some(self.selected_node),
            encoded_byte,
            new_state,
            node.weight + self.weights[encoded_byte as usize],
        )
    }

    /// One expansion step: every frontier node within the weight threshold
    /// is retained in the arena and spawns one child per freedom value
    /// added into the step's template byte.
    #[verifier::loop_isolation(false)]
    #[verifier::rlimit(100)]
    pub fn expand_search(
        &mut self,
        prev_nodes: &Vec<SearchNode>,
        max_weight: i128,
        freedom_bit_count: u8,
        bits_to_encode: u8,
    ) -> (new_nodes: Vec<SearchNode>)
        requires
            old(self).wf(),
            old(self).weights_ready(),
            freedom_bit_count <= 7,
            bits_to_encode & (((1u8 << freedom_bit_count) - 1) as u8) == 0,
            forall|k: int|
                0 <= k < prev_nodes@.len() ==> #[trigger] prev_nodes@[k].weight <= PATH_WEIGHT_MAX,
        ensures
            final(self).wf(),
            final(self).weights_spec() == old(self).weights_spec(),
            final(self).fwd() == old(self).fwd(),
            old(self).nodes_spec().is_prefix_of(final(self).nodes_spec()),
            final(self).nodes_spec().len() == old(self).nodes_spec().len() + count_admitted(
                as_current_seq(prev_nodes@),
                prev_nodes@.len() as int,
                max_weight,
            ),
            new_nodes@.len() == count_admitted(
                as_current_seq(prev_nodes@),
                prev_nodes@.len() as int,
                max_weight,
            ) * ((1u8 << freedom_bit_count) as int),
            forall|k: int|
                0 <= k < new_nodes@.len() ==> spec_min_weight(as_current_seq(prev_nodes@))
                    <= #[trigger] new_nodes@[k].weight <= spec_max_weight(as_current_seq(prev_nodes@))
                    + BYTE_WEIGHT_MAX,
            as_current_seq(new_nodes@) == spec_expanded_children(
                as_current_seq(prev_nodes@),
                prev_nodes@.len() as int,
                max_weight,
                bits_to_encode,
                (1u8 << freedom_bit_count) as int,
                old(self).nodes_spec().len() as int,
                old(self).weights_spec(),
                old(self).fwd(),
            ),
            as_current_seq(final(self).nodes_spec()) == as_current_seq(old(self).nodes_spec())
                + spec_retained(
                as_current_seq(prev_nodes@),
                prev_nodes@.len() as int,
                max_weight,
            ),
    {
        let ghost fvc = (1u8 << freedom_bit_count) as int;
        let ghost prev_cur = as_current_seq(prev_nodes@);
        let freedom_value_count: u8 = 1u8 << freedom_bit_count;
        let mut new_nodes: Vec<SearchNode> = Vec::new();
        let prev_len = prev_nodes.len();
        proof {
            assert(as_current_seq(new_nodes@) =~= spec_expanded_children(
                prev_cur,
                0,
                max_weight,
                bits_to_encode,
                fvc,
                old(self).nodes_spec().len() as int,
                old(self).weights_spec(),
                old(self).fwd(),
            ));
            assert(as_current_seq(self.nodes_spec()) =~= as_current_seq(old(self).nodes_spec())
                + spec_retained(prev_cur, 0, max_weight));
        }

        for idx in 0..prev_len
            invariant
                self.wf(),
                self.weights_spec() == old(self).weights_spec(),
                self.fwd() == old(self).fwd(),
                self.weights_ready(),
                old(self).nodes_spec().is_prefix_of(self.nodes_spec()),
                self.nodes_spec().len() == old(self).nodes_spec().len() + count_admitted(
                    prev_cur,
                    idx as int,
                    max_weight,
                ),
                new_nodes@.len() == count_admitted(prev_cur, idx as int, max_weight) * fvc,
                as_current_seq(new_nodes@) == spec_expanded_children(
                    prev_cur,
                    idx as int,
                    max_weight,
                    bits_to_encode,
                    fvc,
                    old(self).nodes_spec().len() as int,
                    old(self).weights_spec(),
                    old(self).fwd(),
                ),
                as_current_seq(self.nodes_spec()) == as_current_seq(old(self).nodes_spec())
                    + spec_retained(prev_cur, idx as int, max_weight),
                forall|k: int|
                    0 <= k < new_nodes@.len() ==> spec_min_weight(prev_cur)
                        <= #[trigger] new_nodes@[k].weight <= spec_max_weight(prev_cur)
                        + BYTE_WEIGHT_MAX,
        {
            let prev_node = &prev_nodes[idx];
            proof {
                assert(prev_cur[idx as int] == as_current(prev_nodes@[idx as int]));
            }
            if prev_node.weight as i128 <= max_weight {
                let ghost children_before = new_nodes@;
                let ghost slot = self.nodes.len();
                for freedom_bits_value in 0..freedom_value_count
                    invariant
                        self.wf(),
                        self.weights_ready(),
                        new_nodes@.len() == children_before.len() + freedom_bits_value,
                        new_nodes@.take(children_before.len() as int) == children_before,
                        forall|k: int|
                            0 <= k < freedom_bits_value ==> is_child(
                                as_current(#[trigger] new_nodes@[children_before.len() + k]),
                                old(self).fwd(),
                                slot,
                                as_current(prev_nodes@[idx as int]),
                                old(self).weights_spec(),
                                (bits_to_encode + k) as u8,
                            ),
                        forall|k: int|
                            0 <= k < new_nodes@.len() ==> spec_min_weight(prev_cur)
                                <= #[trigger] new_nodes@[k].weight <= spec_max_weight(prev_cur)
                                + BYTE_WEIGHT_MAX,
                {
                    proof {
                        crate::encoder::lemma_freedom_merge(
                            bits_to_encode,
                            freedom_bits_value,
                            freedom_bit_count,
                        );
                    }
                    let modified_byte = bits_to_encode + freedom_bits_value;
                    let child = self.get_encoding_node(prev_node, modified_byte);
                    proof {
                        crate::encoder::kt_search_tree::lemma_min_max_weight_bounds(
                            prev_cur,
                            idx as int,
                        );
                        assert(as_current(child).weight == child.weight);
                    }
                    new_nodes.push(child);
                    proof {
                        assert(new_nodes@.take(children_before.len() as int) =~= children_before);
                    }
                }
                let ghost arena_before = self.nodes_spec();
                let saved_node = SearchNode::new(
                    prev_node.parent_index,
                    prev_node.encoded_byte,
                    0,
                    0,
                );
                self.nodes.push(saved_node);
                self.selected_node = self.nodes.len();
                proof {
                    assert(count_admitted(prev_cur, idx as int + 1, max_weight) == count_admitted(
                        prev_cur,
                        idx as int,
                        max_weight,
                    ) + 1);
                    assert(new_nodes@.len() == (count_admitted(prev_cur, idx as int, max_weight)
                        + 1) * fvc) by (nonlinear_arith)
                        requires
                            new_nodes@.len() == count_admitted(prev_cur, idx as int, max_weight)
                                * fvc + fvc,
                    ;
                    // the fresh chunk is exactly the spec children of this
                    // parent, and the arena gained exactly its retained copy
                    let chunk = spec_children_of(
                        as_current(prev_nodes@[idx as int]),
                        bits_to_encode,
                        fvc,
                        slot as int,
                        old(self).weights_spec(),
                        old(self).fwd(),
                    );
                    assert forall|q: int|
                        0 <= q < as_current_seq(new_nodes@).len() implies as_current_seq(
                        new_nodes@,
                    )[q] == (as_current_seq(children_before) + chunk)[q] by {
                        if q >= children_before.len() {
                            let fv = q - children_before.len();
                            crate::encoder::lemma_freedom_merge(
                                bits_to_encode,
                                fv as u8,
                                freedom_bit_count,
                            );
                            assert(is_child(
                                as_current(new_nodes@[children_before.len() + fv]),
                                old(self).fwd(),
                                slot,
                                as_current(prev_nodes@[idx as int]),
                                old(self).weights_spec(),
                                (bits_to_encode + fv) as u8,
                            ));
                        } else {
                            assert(new_nodes@[q] == children_before[q]);
                        }
                    }
                    assert(as_current_seq(new_nodes@) =~= as_current_seq(children_before) + chunk);
                    assert(slot as int == old(self).nodes_spec().len() + count_admitted(
                        prev_cur,
                        idx as int,
                        max_weight,
                    ));
                    assert(as_current_seq(new_nodes@) =~= spec_expanded_children(
                        prev_cur,
                        idx as int + 1,
                        max_weight,
                        bits_to_encode,
                        fvc,
                        old(self).nodes_spec().len() as int,
                        old(self).weights_spec(),
                        old(self).fwd(),
                    ));
                    let retained_prev = spec_retained(prev_cur, idx as int, max_weight);
                    let retained_next = spec_retained(prev_cur, idx as int + 1, max_weight);
                    assert(retained_next =~= retained_prev.push(
                        (crate::encoder::kt_search_tree::SearchNode {
                            parent_index: prev_cur[idx as int].parent_index,
                            encoded_byte: prev_cur[idx as int].encoded_byte,
                            state: 0,
                            weight: 0,
                        }),
                    ));
                    assert(as_current(saved_node) == (crate::encoder::kt_search_tree::SearchNode {
                        parent_index: prev_cur[idx as int].parent_index,
                        encoded_byte: prev_cur[idx as int].encoded_byte,
                        state: 0,
                        weight: 0,
                    }));
                    assert forall|q: int|
                        0 <= q < as_current_seq(self.nodes_spec()).len() implies as_current_seq(
                        self.nodes_spec(),
                    )[q] == (as_current_seq(old(self).nodes_spec()) + retained_next)[q] by {
                        if q < arena_before.len() {
                            assert(self.nodes_spec()[q] == arena_before[q]);
                            assert(as_current_seq(arena_before)[q] == (as_current_seq(
                                old(self).nodes_spec(),
                            ) + retained_prev)[q]);
                        } else {
                            assert(self.nodes_spec()[q] == saved_node);
                        }
                    }
                    assert(as_current_seq(self.nodes_spec()) =~= as_current_seq(
                        old(self).nodes_spec(),
                    ) + retained_next);
                }
            } else {
                proof {
                    assert(count_admitted(prev_cur, idx as int + 1, max_weight) == count_admitted(
                        prev_cur,
                        idx as int,
                        max_weight,
                    ));
                }
            }
        }
        new_nodes
    }
}

} // verus!
