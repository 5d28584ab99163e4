//! The diffusion itself: capacity-limited flux along the edges of the graph,
//! step after step, over two amount buffers that take turns.

use vstd::prelude::*;
use vstd::slice::slice_subrange;
use crate::binary32;
use crate::binary32::exactness::{
    is_exact_sum,
    lemma_neg_value,
    lemma_sum_goes_by_value,
    scaled_value,
};
use crate::diffusion::extract_graph::{DiffusionNode, graph_wf, slots_apart};
use crate::interop_extern::diffusion::DiffusionEdge;

verus! {

/// What a diffusion job holds.
pub ghost struct Graph {
    pub nodes: Seq<DiffusionNode>,
    pub capacities: Seq<u32>,
    pub multiplier: u32,
}

/// The graph to diffuse over, borrowed.
#[derive(Copy, Clone)]
pub struct DiffusionJob<'a> {
    pub nodes: &'a [DiffusionNode],
    pub node_max_capacities: &'a [u32],
    pub diffusion_global_multiplier: u32,
}

impl<'a> View for DiffusionJob<'a> {
    type V = Graph;

    open spec fn view(&self) -> Graph {
        Graph {
            nodes: self.nodes@,
            capacities: self.node_max_capacities@,
            multiplier: self.diffusion_global_multiplier,
        }
    }
}

/// Two amount buffers, borrowed, and the flag that tells which of them is
/// current.
pub struct DiffusionAmountData<'a> {
    pub node_amount_list_a: &'a mut [u32],
    pub node_amount_list_b: &'a mut [u32],
    pub latest_in_a: bool,
}

impl DiffusionAmountData<'_> {
    /// The buffer that holds the current amounts.
    pub open spec fn latest(&self) -> Seq<u32> {
        if self.latest_in_a {
            self.node_amount_list_a@
        } else {
            self.node_amount_list_b@
        }
    }

    /// The buffer that the next step writes.
    pub open spec fn spare(&self) -> Seq<u32> {
        if self.latest_in_a {
            self.node_amount_list_b@
        } else {
            self.node_amount_list_a@
        }
    }

    /// Hands out the current buffer to read and the other one to write, and
    /// makes the other one current.
    pub fn take_buffer_pair(&mut self) -> (r: (&[u32], &mut [u32]))
        ensures
            r.0@ == old(self).latest(),
            r.1@ == old(self).spare(),
            final(self).latest_in_a == !old(self).latest_in_a,
            final(self).latest() == final(r.1)@,
            final(self).spare() == old(self).latest(),
    {
        if self.latest_in_a {
            self.latest_in_a = false;
            (self.node_amount_list_a, self.node_amount_list_b)
        } else {
            self.latest_in_a = true;
            (self.node_amount_list_b, self.node_amount_list_a)
        }
    }

    /// The current amounts.
    pub fn get_latest_data(&self) -> (r: &[u32])
        ensures
            r@ == self.latest(),
    {
        if self.latest_in_a {
            self.node_amount_list_a
        } else {
            self.node_amount_list_b
        }
    }
}

impl Graph {
    /// The nodes form a forest over buffers of `amount_len` slots, and
    /// every slot has its capacity.
    pub open spec fn wf(self, amount_len: nat) -> bool {
        &&& graph_wf(self.nodes, amount_len)
        &&& self.capacities.len() == amount_len
    }

    /// The edge from the node at `j` to its parent, if it has one.
    pub open spec fn edge_of(self, j: int) -> Option<DiffusionEdge> {
        if self.nodes[j].parent_node_index < 0 {
            Option::None
        } else {
            Option::Some(
                DiffusionEdge {
                    node_a_index: j as i32,
                    node_b_index: self.nodes[j].parent_node_index,
                },
            )
        }
    }

    /// The share of a difference that crosses the edge in one step: the
    /// multiplier times the mean of the two diffusion constants.
    pub open spec fn edge_constant(self, edge: DiffusionEdge) -> u32 {
        binary32::halve_spec(
            binary32::mul_spec(
                self.multiplier,
                binary32::add_spec(
                    self.nodes[edge.node_a_index as int].diffusion_constant,
                    self.nodes[edge.node_b_index as int].diffusion_constant,
                ),
            ),
        )
    }

    /// How many resources cross the edge: those that both ends hold.
    pub open spec fn shared_resources(self, edge: DiffusionEdge) -> int {
        let a = self.nodes[edge.node_a_index as int].total_resource_types;
        let b = self.nodes[edge.node_b_index as int].total_resource_types;
        if a <= b {
            a as int
        } else {
            b as int
        }
    }

    /// The slot of the child's resource `r`.
    pub open spec fn child_slot(self, edge: DiffusionEdge, r: int) -> int {
        self.nodes[edge.node_a_index as int].index_in_temp_amount_list + r
    }

    /// The slot of the parent's resource `r`.
    pub open spec fn parent_slot(self, edge: DiffusionEdge, r: int) -> int {
        self.nodes[edge.node_b_index as int].index_in_temp_amount_list + r
    }

    /// What flows from the parent to the child for resource `r`, going by
    /// the amounts `pre` from before the step; negative where the child
    /// holds more.
    pub open spec fn flow(self, pre: Seq<u32>, edge: DiffusionEdge, r: int) -> u32 {
        binary32::mul_spec(
            self.edge_constant(edge),
            binary32::sub_spec(pre[self.parent_slot(edge, r)], pre[self.child_slot(edge, r)]),
        )
    }

    /// Whether the flow of resource `r` is held back: there is none, or it
    /// runs towards an end that is filled to its capacity already.
    pub open spec fn held_back(self, pre: Seq<u32>, edge: DiffusionEdge, r: int) -> bool {
        let flow = self.flow(pre, edge, r);
        let child = self.child_slot(edge, r);
        let parent = self.parent_slot(edge, r);
        ||| binary32::is_zero(flow)
        ||| (binary32::lt_spec(flow, binary32::ZERO) && binary32::ge_spec(
            pre[parent],
            self.capacities[parent],
        ))
        ||| (binary32::lt_spec(binary32::ZERO, flow) && binary32::ge_spec(
            pre[child],
            self.capacities[child],
        ))
    }

    /// The amounts `post` after resource `r` crossed the edge: unless the
    /// flow is held back, the child gains it and the parent loses it.
    pub open spec fn resource_moved(
        self,
        pre: Seq<u32>,
        post: Seq<u32>,
        edge: DiffusionEdge,
        r: int,
    ) -> Seq<u32> {
        if self.held_back(pre, edge, r) {
            post
        } else {
            let flow = self.flow(pre, edge, r);
            let child = self.child_slot(edge, r);
            let parent = self.parent_slot(edge, r);
            let gained = post.update(child, binary32::add_spec(post[child], flow));
            gained.update(parent, binary32::sub_spec(gained[parent], flow))
        }
    }

    /// The amounts `post` after the first `upto` resources crossed the edge.
    pub open spec fn edge_crossed(
        self,
        pre: Seq<u32>,
        post: Seq<u32>,
        edge: DiffusionEdge,
        upto: nat,
    ) -> Seq<u32>
        decreases upto,
    {
        if upto == 0 {
            post
        } else {
            self.resource_moved(
                pre,
                self.edge_crossed(pre, post, edge, (upto - 1) as nat),
                edge,
                upto - 1,
            )
        }
    }

    /// The amounts `post` after the node at `j` exchanged with its parent;
    /// unchanged for a node without parent.
    pub open spec fn node_exchanged(self, pre: Seq<u32>, post: Seq<u32>, j: int) -> Seq<u32> {
        match self.edge_of(j) {
            Option::None => post,
            Option::Some(edge) => self.edge_crossed(
                pre,
                post,
                edge,
                self.shared_resources(edge) as nat,
            ),
        }
    }

    /// The amounts after the first `upto` nodes exchanged with their
    /// parents, every flow going by the amounts `pre`.
    pub open spec fn nodes_exchanged(self, pre: Seq<u32>, upto: nat) -> Seq<u32>
        decreases upto,
    {
        if upto == 0 {
            pre
        } else {
            self.node_exchanged(pre, self.nodes_exchanged(pre, (upto - 1) as nat), upto - 1)
        }
    }

    /// The amounts one step after `pre`.
    pub open spec fn stepped(self, pre: Seq<u32>) -> Seq<u32> {
        self.nodes_exchanged(pre, self.nodes.len())
    }

    /// The amounts `steps` steps after `amounts`.
    pub open spec fn diffused(self, amounts: Seq<u32>, steps: nat) -> Seq<u32>
        decreases steps,
    {
        if steps == 0 {
            amounts
        } else {
            self.stepped(self.diffused(amounts, (steps - 1) as nat))
        }
    }

    /// Whether `edge` joins two nodes of the graph.
    pub open spec fn has_edge(self, edge: DiffusionEdge) -> bool {
        &&& 0 <= edge.node_a_index < self.nodes.len()
        &&& 0 <= edge.node_b_index < self.nodes.len()
    }

    /// Crossing an edge keeps the number of slots.
    pub proof fn lemma_edge_keeps_len(
        self,
        pre: Seq<u32>,
        post: Seq<u32>,
        edge: DiffusionEdge,
        upto: nat,
    )
        requires
            self.wf(post.len()),
            self.has_edge(edge),
            upto <= self.shared_resources(edge),
        ensures
            self.edge_crossed(pre, post, edge, upto).len() == post.len(),
        decreases upto,
    {
        if upto > 0 {
            self.lemma_edge_keeps_len(pre, post, edge, (upto - 1) as nat);
        }
    }

    /// The exchanges of a step keep the number of slots.
    pub proof fn lemma_nodes_keep_len(self, pre: Seq<u32>, upto: nat)
        requires
            self.wf(pre.len()),
            upto <= self.nodes.len(),
        ensures
            self.nodes_exchanged(pre, upto).len() == pre.len(),
        decreases upto,
    {
        if upto > 0 {
            self.lemma_nodes_keep_len(pre, (upto - 1) as nat);
            let post = self.nodes_exchanged(pre, (upto - 1) as nat);
            match self.edge_of(upto - 1) {
                Option::None => {},
                Option::Some(edge) => {
                    self.lemma_edge_keeps_len(pre, post, edge, self.shared_resources(edge) as nat);
                },
            }
        }
    }

    /// Diffusion keeps the number of slots.
    pub proof fn lemma_diffused_keeps_len(self, amounts: Seq<u32>, steps: nat)
        requires
            self.wf(amounts.len()),
        ensures
            self.diffused(amounts, steps).len() == amounts.len(),
        decreases steps,
    {
        if steps > 0 {
            self.lemma_diffused_keeps_len(amounts, (steps - 1) as nat);
            self.lemma_nodes_keep_len(self.diffused(amounts, (steps - 1) as nat), self.nodes.len());
        }
    }
}

impl Graph {
    /// Whether every flow that reaches the slot `s` in a step from `pre` runs
    /// into it: on an edge that has `s` at its child end nothing flows or
    /// the flow runs to the child, and on an edge that has `s` at its
    /// parent end nothing flows or the flow runs to the parent.
    pub open spec fn only_inflow(self, pre: Seq<u32>, s: int) -> bool {
        forall|j: int, r: int|
            #![trigger self.flow(pre, self.edge_of(j).unwrap(), r)]
            0 <= j < self.nodes.len() && self.edge_of(j).is_some() && 0 <= r
                < self.shared_resources(self.edge_of(j).unwrap()) ==> {
                &&& self.child_slot(self.edge_of(j).unwrap(), r) == s ==> self.runs_to_child(
                    pre,
                    self.edge_of(j).unwrap(),
                    r,
                )
                &&& self.parent_slot(self.edge_of(j).unwrap(), r) == s ==> self.runs_to_parent(
                    pre,
                    self.edge_of(j).unwrap(),
                    r,
                )
            }
    }

    /// Nothing flows, or the flow of resource `r` runs to the child.
    pub open spec fn runs_to_child(self, pre: Seq<u32>, edge: DiffusionEdge, r: int) -> bool {
        let flow = self.flow(pre, edge, r);
        binary32::is_zero(flow) || binary32::lt_spec(binary32::ZERO, flow)
    }

    /// Nothing flows, or the flow of resource `r` runs to the parent.
    pub open spec fn runs_to_parent(self, pre: Seq<u32>, edge: DiffusionEdge, r: int) -> bool {
        let flow = self.flow(pre, edge, r);
        binary32::is_zero(flow) || binary32::lt_spec(flow, binary32::ZERO)
    }

    /// Crossing an edge leaves a slot as it is where every resource of the
    /// edge that has the slot at one of its ends is held back.
    pub proof fn lemma_edge_spares_slot(
        self,
        pre: Seq<u32>,
        post: Seq<u32>,
        edge: DiffusionEdge,
        upto: nat,
        s: int,
    )
        requires
            self.wf(post.len()),
            self.has_edge(edge),
            upto <= self.shared_resources(edge),
            0 <= s < post.len(),
            forall|r: int|
                0 <= r < upto && (self.child_slot(edge, r) == s || self.parent_slot(edge, r) == s)
                    ==> #[trigger] self.held_back(pre, edge, r),
        ensures
            self.edge_crossed(pre, post, edge, upto).len() == post.len(),
            self.edge_crossed(pre, post, edge, upto)[s] == post[s],
        decreases upto,
    {
        if upto > 0 {
            self.lemma_edge_spares_slot(pre, post, edge, (upto - 1) as nat, s);
            self.lemma_edge_keeps_len(pre, post, edge, (upto - 1) as nat);
            let r = upto - 1;
            if self.child_slot(edge, r) == s || self.parent_slot(edge, r) == s {
                assert(self.held_back(pre, edge, r));
            }
        }
    }

    /// A resource that is filled to its capacity, and that every flow of the
    /// step would fill further, keeps its amount over the step.
    pub proof fn lemma_full_slot_stays(self, pre: Seq<u32>, s: int)
        requires
            self.wf(pre.len()),
            0 <= s < pre.len(),
            binary32::ge_spec(pre[s], self.capacities[s]),
            self.only_inflow(pre, s),
        ensures
            self.stepped(pre)[s] == pre[s],
    {
        self.lemma_full_slot_stays_upto(pre, s, self.nodes.len());
    }

    /// The same of the first `upto` exchanges of the step.
    proof fn lemma_full_slot_stays_upto(self, pre: Seq<u32>, s: int, upto: nat)
        requires
            self.wf(pre.len()),
            0 <= s < pre.len(),
            binary32::ge_spec(pre[s], self.capacities[s]),
            self.only_inflow(pre, s),
            upto <= self.nodes.len(),
        ensures
            self.nodes_exchanged(pre, upto).len() == pre.len(),
            self.nodes_exchanged(pre, upto)[s] == pre[s],
        decreases upto,
    {
        if upto > 0 {
            self.lemma_full_slot_stays_upto(pre, s, (upto - 1) as nat);
            let post = self.nodes_exchanged(pre, (upto - 1) as nat);
            let j = upto - 1;
            match self.edge_of(j) {
                Option::None => {},
                Option::Some(edge) => {
                    let shared = self.shared_resources(edge) as nat;
                    assert forall|r: int|
                        0 <= r < shared && (self.child_slot(edge, r) == s || self.parent_slot(
                            edge,
                            r,
                        ) == s) implies #[trigger] self.held_back(pre, edge, r) by {
                        let flow = self.flow(pre, edge, r);
                        assert(self.edge_of(j).unwrap() == edge);
                    }
                    self.lemma_edge_spares_slot(pre, post, edge, shared, s);
                },
            }
        }
    }

    /// Over an edge whose ends keep their resources apart, crossing moves
    /// each of the first `upto` resources by its own flow, and nothing
    /// else: unless the flow is held back, the child's slot gains it and
    /// the parent's slot loses it.
    pub proof fn lemma_edge_moves_each_resource(
        self,
        pre: Seq<u32>,
        post: Seq<u32>,
        edge: DiffusionEdge,
        upto: nat,
    )
        requires
            self.wf(post.len()),
            self.has_edge(edge),
            upto <= self.shared_resources(edge),
            self.ends_apart(edge),
        ensures
            ({
                let crossed = self.edge_crossed(pre, post, edge, upto);
                &&& crossed.len() == post.len()
                &&& forall|r: int|
                    0 <= r < upto ==> {
                        let child = #[trigger] self.child_slot(edge, r);
                        let parent = self.parent_slot(edge, r);
                        let flow = self.flow(pre, edge, r);
                        if self.held_back(pre, edge, r) {
                            crossed[child] == post[child] && crossed[parent] == post[parent]
                        } else {
                            crossed[child] == binary32::add_spec(post[child], flow)
                                && crossed[parent] == binary32::sub_spec(post[parent], flow)
                        }
                    }
                &&& forall|k: int|
                    0 <= k < post.len() && !self.is_end_slot(edge, upto as int, k)
                        ==> #[trigger] crossed[k] == post[k]
            }),
        decreases upto,
    {
        if upto > 0 {
            self.lemma_edge_moves_each_resource(pre, post, edge, (upto - 1) as nat);
            let before = self.edge_crossed(pre, post, edge, (upto - 1) as nat);
            let crossed = self.edge_crossed(pre, post, edge, upto);
            let last = upto - 1;
            assert(!self.is_end_slot(edge, last, self.child_slot(edge, last)));
            assert(!self.is_end_slot(edge, last, self.parent_slot(edge, last)));
            assert forall|r: int| 0 <= r < upto implies {
                let child = #[trigger] self.child_slot(edge, r);
                let parent = self.parent_slot(edge, r);
                let flow = self.flow(pre, edge, r);
                if self.held_back(pre, edge, r) {
                    crossed[child] == post[child] && crossed[parent] == post[parent]
                } else {
                    crossed[child] == binary32::add_spec(post[child], flow) && crossed[parent]
                        == binary32::sub_spec(post[parent], flow)
                }
            } by {
                if r < last {
                    assert(self.child_slot(edge, r) != self.child_slot(edge, last));
                    assert(self.parent_slot(edge, r) != self.parent_slot(edge, last));
                }
            }
            assert forall|k: int|
                0 <= k < post.len() && !self.is_end_slot(edge, upto as int, k) implies #[trigger] crossed[k]
                == post[k] by {
                assert(!self.is_end_slot(edge, last, k));
                assert(k != self.child_slot(edge, last));
                assert(k != self.parent_slot(edge, last));
            }
        }
    }

    /// Whether the two ends of the edge keep their resources in slots of
    /// their own.
    pub open spec fn ends_apart(self, edge: DiffusionEdge) -> bool {
        let a = self.nodes[edge.node_a_index as int];
        let b = self.nodes[edge.node_b_index as int];
        ||| a.index_in_temp_amount_list + a.total_resource_types <= b.index_in_temp_amount_list
        ||| b.index_in_temp_amount_list + b.total_resource_types <= a.index_in_temp_amount_list
    }

    /// Whether `k` is the slot of one of the first `upto` resources at
    /// either end of the edge.
    pub open spec fn is_end_slot(self, edge: DiffusionEdge, upto: int, k: int) -> bool {
        let a = self.nodes[edge.node_a_index as int].index_in_temp_amount_list;
        let b = self.nodes[edge.node_b_index as int].index_in_temp_amount_list;
        a <= k < a + upto || b <= k < b + upto
    }

    /// In a graph of a parent and its one child, a step moves every
    /// resource that both hold from one to the other: what the child gains
    /// is the flow that the parent loses, and a flow that is held back
    /// changes neither.
    pub proof fn lemma_step_moves_between_two(self, pre: Seq<u32>, r: int)
        requires
            self.wf(pre.len()),
            self.nodes.len() == 2,
            self.nodes[1].parent_node_index == 0,
            self.ends_apart(self.edge_of(1).unwrap()),
            0 <= r < self.shared_resources(self.edge_of(1).unwrap()),
        ensures
            ({
                let edge = self.edge_of(1).unwrap();
                let child = self.child_slot(edge, r);
                let parent = self.parent_slot(edge, r);
                let flow = self.flow(pre, edge, r);
                let post = self.stepped(pre);
                if self.held_back(pre, edge, r) {
                    post[child] == pre[child] && post[parent] == pre[parent]
                } else {
                    post[child] == binary32::add_spec(pre[child], flow) && post[parent]
                        == binary32::sub_spec(pre[parent], flow)
                }
            }),
    {
        let edge = self.edge_of(1).unwrap();
        assert(self.nodes[0].parent_node_index < 0);
        assert(self.edge_of(0).is_none());
        assert(self.nodes_exchanged(pre, 0) == pre);
        assert(self.nodes_exchanged(pre, 1) == self.node_exchanged(
            pre,
            self.nodes_exchanged(pre, 0),
            0,
        ));
        assert(self.nodes_exchanged(pre, 1) == pre);
        assert(self.stepped(pre) == self.node_exchanged(pre, self.nodes_exchanged(pre, 1), 1));
        self.lemma_edge_moves_each_resource(pre, pre, edge, self.shared_resources(edge) as nat);
    }

    /// Where every node has slots of its own, the two ends of every edge
    /// keep their resources apart.
    pub proof fn lemma_own_slots_keep_ends_apart(self, j: int)
        requires
            self.wf(self.capacities.len()),
            slots_apart(self.nodes),
            0 <= j < self.nodes.len(),
            self.edge_of(j).is_some(),
        ensures
            self.has_edge(self.edge_of(j).unwrap()),
            self.ends_apart(self.edge_of(j).unwrap()),
    {
        let parent = self.nodes[j].parent_node_index as int;
        assert(self.nodes[parent].index_in_temp_amount_list
            + self.nodes[parent].total_resource_types
            <= self.nodes[j].index_in_temp_amount_list);
    }

    /// Whether resource `r` crosses the edge without rounding: the flow is
    /// held back, or the child's gain and the parent's loss are both exact
    /// sums.
    pub open spec fn moves_exactly(self, pre: Seq<u32>, edge: DiffusionEdge, r: int) -> bool {
        let flow = self.flow(pre, edge, r);
        ||| self.held_back(pre, edge, r)
        ||| (is_exact_sum(pre[self.child_slot(edge, r)], flow) && is_exact_sum(
            pre[self.parent_slot(edge, r)],
            binary32::neg_spec(flow),
        ))
    }

    /// In a graph of a parent and its one child, a step keeps what the two
    /// hold together of a resource, as long as the resource crosses the
    /// edge without rounding: the numbers of the two amounts add up to the
    /// same before and after, and so do the amounts themselves where that
    /// sum is not zero.
    pub proof fn lemma_exact_exchange_conserves(self, pre: Seq<u32>, r: int)
        requires
            self.wf(pre.len()),
            self.nodes.len() == 2,
            self.nodes[1].parent_node_index == 0,
            self.ends_apart(self.edge_of(1).unwrap()),
            0 <= r < self.shared_resources(self.edge_of(1).unwrap()),
            binary32::is_finite(pre[self.child_slot(self.edge_of(1).unwrap(), r)]),
            binary32::is_finite(pre[self.parent_slot(self.edge_of(1).unwrap(), r)]),
            self.moves_exactly(pre, self.edge_of(1).unwrap(), r),
        ensures
            ({
                let edge = self.edge_of(1).unwrap();
                let child = self.child_slot(edge, r);
                let parent = self.parent_slot(edge, r);
                let post = self.stepped(pre);
                let total = scaled_value(pre[child]) + scaled_value(pre[parent]);
                &&& binary32::is_finite(post[child])
                &&& binary32::is_finite(post[parent])
                &&& scaled_value(post[child]) + scaled_value(post[parent]) == total
                &&& total != 0 ==> binary32::add_spec(post[child], post[parent])
                    == binary32::add_spec(pre[child], pre[parent])
            }),
    {
        let edge = self.edge_of(1).unwrap();
        let child = self.child_slot(edge, r);
        let parent = self.parent_slot(edge, r);
        let flow = self.flow(pre, edge, r);
        let post = self.stepped(pre);
        self.lemma_step_moves_between_two(pre, r);
        if !self.held_back(pre, edge, r) {
            lemma_neg_value(flow);
            assert(post[parent] == binary32::add_spec(pre[parent], binary32::neg_spec(flow)));
        }
        let total = scaled_value(pre[child]) + scaled_value(pre[parent]);
        if total != 0 {
            lemma_sum_goes_by_value(pre[child], pre[parent]);
            lemma_sum_goes_by_value(post[child], post[parent]);
        }
    }
}

/// How many steps a signed step count asks for: none where it is negative.
pub open spec fn step_count(diffuse_steps: i32) -> nat {
    if diffuse_steps < 0 {
        0
    } else {
        diffuse_steps as nat
    }
}

impl DiffusionJob<'_> {
    /// Tells whether the job can run over buffers of `amount_len` slots.
    pub fn is_well_formed(&self, amount_len: usize) -> (ok: bool)
        ensures
            ok == self@.wf(amount_len as nat),
    {
        let node_count: usize = self.nodes.len();
        if node_count > 0x7fff_ffff || self.node_max_capacities.len() != amount_len {
            return false;
        }
        let mut j: usize = 0;
        while j < node_count
            invariant
                j <= node_count == self@.nodes.len() <= i32::MAX,
                forall|i: int|
                    0 <= i < j ==> {
                        let node = #[trigger] self@.nodes[i];
                        &&& -1 <= node.parent_node_index < i
                        &&& 0 <= node.index_in_temp_amount_list
                        &&& 0 <= node.total_resource_types
                        &&& node.index_in_temp_amount_list + node.total_resource_types
                            <= amount_len
                    },
            decreases node_count - j,
        {
            let node: DiffusionNode = self.nodes[j];
            if node.parent_node_index < -1 || node.parent_node_index as i64 >= j as i64
                || node.index_in_temp_amount_list < 0 || node.total_resource_types < 0
                || node.index_in_temp_amount_list as u64 + node.total_resource_types as u64
                > amount_len as u64 {
                assert(self@.nodes[j as int] == node);
                return false;
            }
            j = j + 1;
        }
        true
    }

    /// The edge from the node at `node_index` to its parent, if it has one.
    pub fn edge_to_parent(&self, node_index: usize) -> (edge: Option<DiffusionEdge>)
        requires
            node_index < self@.nodes.len() <= i32::MAX,
        ensures
            edge == self@.edge_of(node_index as int),
    {
        let parent: i32 = self.nodes[node_index].parent_node_index;
        if parent < 0 {
            None
        } else {
            Some(DiffusionEdge { node_a_index: node_index as i32, node_b_index: parent })
        }
    }

    /// Runs `diffuse_steps` steps. Every step copies the current amounts to
    /// the other buffer, lets every node exchange with its parent there,
    /// and makes that buffer current. Returns false: nothing ends a
    /// diffusion early.
    pub fn diffuse_between(self, double_buffered_data: &mut DiffusionAmountData, diffuse_steps: i32) -> (r: bool)
        requires
            self@.wf(old(double_buffered_data).latest().len()),
            old(double_buffered_data).node_amount_list_a@.len()
                == old(double_buffered_data).node_amount_list_b@.len(),
        ensures
            !r,
            final(double_buffered_data).node_amount_list_a@.len()
                == old(double_buffered_data).node_amount_list_a@.len(),
            final(double_buffered_data).node_amount_list_b@.len()
                == old(double_buffered_data).node_amount_list_b@.len(),
            final(double_buffered_data).latest() == self@.diffused(
                old(double_buffered_data).latest(),
                step_count(diffuse_steps),
            ),
            final(double_buffered_data).latest_in_a == (old(double_buffered_data).latest_in_a == (
            step_count(diffuse_steps) % 2 == 0)),
            diffuse_steps <= 0 ==> final(double_buffered_data).latest()
                == old(double_buffered_data).latest(),
            diffuse_steps <= 0 ==> final(double_buffered_data).spare()
                == old(double_buffered_data).spare(),
            diffuse_steps > 0 ==> final(double_buffered_data).spare() == self@.diffused(
                old(double_buffered_data).latest(),
                (diffuse_steps - 1) as nat,
            ),
    {
        let ghost start = double_buffered_data.latest();
        let ghost graph = self@;
        let mut step: i32 = 0;
        while step < diffuse_steps
            invariant
                0 <= step <= step_count(diffuse_steps),
                graph == self@,
                graph.wf(start.len()),
                start == old(double_buffered_data).latest(),
                double_buffered_data.node_amount_list_a@.len() == start.len(),
                double_buffered_data.node_amount_list_b@.len() == start.len(),
                double_buffered_data.latest() == graph.diffused(start, step as nat),
                double_buffered_data.latest_in_a == (old(double_buffered_data).latest_in_a == (step
                    % 2 == 0)),
                step == 0 ==> double_buffered_data.spare() == old(double_buffered_data).spare(),
                step > 0 ==> double_buffered_data.spare() == graph.diffused(
                    start,
                    (step - 1) as nat,
                ),
            decreases diffuse_steps - step,
        {
            proof {
                graph.lemma_diffused_keeps_len(start, step as nat);
                graph.lemma_diffused_keeps_len(start, (step + 1) as nat);
            }
            let (source_amounts, target_amounts) = double_buffered_data.take_buffer_pair();
            self.diffuse_step(source_amounts, target_amounts);
            step = step + 1;
        }
        false
    }

    /// One step from `source_amounts` into `target_amounts`.
    fn diffuse_step(self, source_amounts: &[u32], target_amounts: &mut [u32])
        requires
            self@.wf(source_amounts@.len()),
            old(target_amounts)@.len() == source_amounts@.len(),
        ensures
            final(target_amounts)@ == self@.stepped(source_amounts@),
    {
        let ghost graph = self@;
        let ghost pre = source_amounts@;
        let len: usize = source_amounts.len();
        let mut k: usize = 0;
        while k < len
            invariant
                k <= len == pre.len() == target_amounts@.len(),
                pre == source_amounts@,
                forall|s: int| 0 <= s < k ==> target_amounts@[s] == pre[s],
            decreases len - k,
        {
            target_amounts[k] = source_amounts[k];
            k = k + 1;
        }
        assert(target_amounts@ =~= pre);
        let node_count: usize = self.nodes.len();
        let mut j: usize = 0;
        while j < node_count
            invariant
                j <= node_count == graph.nodes.len(),
                graph == self@,
                pre == source_amounts@,
                graph.wf(pre.len()),
                target_amounts@ == graph.nodes_exchanged(pre, j as nat),
            decreases node_count - j,
        {
            proof {
                graph.lemma_nodes_keep_len(pre, j as nat);
            }
            self.diffuse_across_edge(j, source_amounts, target_amounts);
            j = j + 1;
        }
    }

    /// Lets the node at `node_index` exchange with its parent: every
    /// resource that both hold flows by the amounts in `source_amounts`,
    /// and `target_amounts` takes the change.
    fn diffuse_across_edge(self, node_index: usize, source_amounts: &[u32], target_amounts: &mut [u32])
        requires
            node_index < self@.nodes.len(),
            self@.wf(source_amounts@.len()),
            old(target_amounts)@.len() == source_amounts@.len(),
        ensures
            final(target_amounts)@ == self@.node_exchanged(
                source_amounts@,
                old(target_amounts)@,
                node_index as int,
            ),
    {
        let ghost graph = self@;
        let ghost pre = source_amounts@;
        let edge: DiffusionEdge = match self.edge_to_parent(node_index) {
            Option::None => {
                return ;
            },
            Option::Some(edge) => edge,
        };
        let node_a: DiffusionNode = self.nodes[edge.node_a_index as usize];
        let node_b: DiffusionNode = self.nodes[edge.node_b_index as usize];
        assert(graph.nodes[node_index as int] == node_a);

        let diffusion_constant: u32 = binary32::halve(
            binary32::mul(
                self.diffusion_global_multiplier,
                binary32::add(node_a.diffusion_constant, node_b.diffusion_constant),
            ),
        );

        let blended_resource_num: usize = if node_a.total_resource_types
            <= node_b.total_resource_types {
            node_a.total_resource_types as usize
        } else {
            node_b.total_resource_types as usize
        };
        let node_a_temp_amt_index: usize = node_a.index_in_temp_amount_list as usize;
        let node_b_temp_amt_index: usize = node_b.index_in_temp_amount_list as usize;
        let len: usize = source_amounts.len();

        let mut resource: usize = 0;
        while resource < blended_resource_num
            invariant
                resource <= blended_resource_num == graph.shared_resources(edge),
                graph == self@,
                pre == source_amounts@,
                graph.wf(pre.len()),
                len == pre.len() == target_amounts@.len(),
                node_index < graph.nodes.len(),
                0 <= edge.node_b_index < graph.nodes.len(),
                edge.node_a_index == node_index,
                node_a == graph.nodes[node_index as int],
                node_b == graph.nodes[edge.node_b_index as int],
                diffusion_constant == graph.edge_constant(edge),
                node_a_temp_amt_index == node_a.index_in_temp_amount_list,
                node_b_temp_amt_index == node_b.index_in_temp_amount_list,
                target_amounts@ == graph.edge_crossed(
                    pre,
                    old(target_amounts)@,
                    edge,
                    resource as nat,
                ),
            decreases blended_resource_num - resource,
        {
            let node_a_resource_index: usize = node_a_temp_amt_index + resource;
            let node_b_resource_index: usize = node_b_temp_amt_index + resource;

            let old_node_a_value: u32 = source_amounts[node_a_resource_index];
            let old_node_b_value: u32 = source_amounts[node_b_resource_index];

            let a_to_b_transferred_amount: u32 = binary32::mul(
                diffusion_constant,
                binary32::sub(old_node_b_value, old_node_a_value),
            );
            assert(a_to_b_transferred_amount == graph.flow(pre, edge, resource as int));
            let held_back: bool = binary32::is_zero_value(a_to_b_transferred_amount) || (
            binary32::lt(a_to_b_transferred_amount, binary32::ZERO) && binary32::ge(
                old_node_b_value,
                self.node_max_capacities[node_b_resource_index],
            )) || (binary32::lt(binary32::ZERO, a_to_b_transferred_amount) && binary32::ge(
                old_node_a_value,
                self.node_max_capacities[node_a_resource_index],
            ));
            assert(held_back == graph.held_back(pre, edge, resource as int));
            if !held_back {
                let gained: u32 = binary32::add(
                    target_amounts[node_a_resource_index],
                    a_to_b_transferred_amount,
                );
                target_amounts[node_a_resource_index] = gained;
                let lost: u32 = binary32::sub(
                    target_amounts[node_b_resource_index],
                    a_to_b_transferred_amount,
                );
                target_amounts[node_b_resource_index] = lost;
            }
            resource = resource + 1;
        }
    }
}

impl DiffusionNode {
    /// The resources of the node within `data`.
    pub fn get_resource_slice<'a>(&'a self, data: &'a [u32]) -> (r: &'a [u32])
        requires
            0 <= self.index_in_temp_amount_list,
            0 <= self.total_resource_types,
            self.index_in_temp_amount_list + self.total_resource_types <= data@.len(),
        ensures
            r@ == data@.subrange(
                self.index_in_temp_amount_list as int,
                self.index_in_temp_amount_list + self.total_resource_types,
            ),
    {
        let index_in_list: usize = self.index_in_temp_amount_list as usize;
        slice_subrange(data, index_in_list, index_in_list + self.total_resource_types as usize)
    }

    /// The resources of the node within `data`, to write.
    pub fn get_resource_slice_mut<'a>(&'a self, data: &'a mut [u32]) -> (r: &'a mut [u32])
        requires
            0 <= self.index_in_temp_amount_list,
            0 <= self.total_resource_types,
            self.index_in_temp_amount_list + self.total_resource_types <= old(data)@.len(),
        ensures
            r@ == old(data)@.subrange(
                self.index_in_temp_amount_list as int,
                self.index_in_temp_amount_list + self.total_resource_types,
            ),
            final(data)@ == old(data)@.subrange(0, self.index_in_temp_amount_list as int)
                + final(r)@ + old(data)@.subrange(
                self.index_in_temp_amount_list + self.total_resource_types,
                old(data)@.len() as int,
            ),
    {
        let index_in_list: usize = self.index_in_temp_amount_list as usize;
        let (_, from_start) = data.split_at_mut(index_in_list);
        let (resources, _) = from_start.split_at_mut(self.total_resource_types as usize);
        resources
    }
}


/// The resources of two nodes within `data`, both to write. The node whose
/// resources end first must end before the other's begin.
pub fn _get_exclusive_slices<'a>(node_a: &DiffusionNode, node_b: &DiffusionNode, data: &'a mut [u32]) -> (r:
    (&'a mut [u32], &'a mut [u32]))
    requires
        0 <= node_a.index_in_temp_amount_list,
        0 <= node_a.total_resource_types,
        0 <= node_b.index_in_temp_amount_list,
        0 <= node_b.total_resource_types,
        node_a.index_in_temp_amount_list + node_a.total_resource_types <= old(data)@.len(),
        node_b.index_in_temp_amount_list + node_b.total_resource_types <= old(data)@.len(),
        if node_a.index_in_temp_amount_list + node_a.total_resource_types
            < node_b.index_in_temp_amount_list + node_b.total_resource_types {
            node_a.index_in_temp_amount_list + node_a.total_resource_types
                <= node_b.index_in_temp_amount_list
        } else {
            node_b.index_in_temp_amount_list + node_b.total_resource_types
                <= node_a.index_in_temp_amount_list
        },
    ensures
        r.0@ == old(data)@.subrange(
            node_a.index_in_temp_amount_list as int,
            node_a.index_in_temp_amount_list + node_a.total_resource_types,
        ),
        r.1@ == old(data)@.subrange(
            node_b.index_in_temp_amount_list as int,
            node_b.index_in_temp_amount_list + node_b.total_resource_types,
        ),
        ({
            let a_start = node_a.index_in_temp_amount_list as int;
            let a_end = a_start + node_a.total_resource_types;
            let b_start = node_b.index_in_temp_amount_list as int;
            let b_end = b_start + node_b.total_resource_types;
            let len = old(data)@.len() as int;
            final(data)@ == if a_end < b_end {
                old(data)@.subrange(0, a_start) + final(r.0)@ + old(data)@.subrange(a_end, b_start)
                    + final(r.1)@ + old(data)@.subrange(b_end, len)
            } else {
                old(data)@.subrange(0, b_start) + final(r.1)@ + old(data)@.subrange(b_end, a_start)
                    + final(r.0)@ + old(data)@.subrange(a_end, len)
            }
        }),
{
    let a_start: usize = node_a.index_in_temp_amount_list as usize;
    let a_end: usize = a_start + node_a.total_resource_types as usize;
    let b_start: usize = node_b.index_in_temp_amount_list as usize;
    let b_end: usize = b_start + node_b.total_resource_types as usize;

    let a_is_lower: bool = a_end < b_end;
    let (lower_start, lower_end, higher_start, higher_end) = if a_is_lower {
        (a_start, a_end, b_start, b_end)
    } else {
        (b_start, b_end, a_start, a_end)
    };
    let ghost before = data@;
    let (lower_slice, higher_slice) = data.split_at_mut(lower_end);
    let (_, trunc_lower) = lower_slice.split_at_mut(lower_start);
    let (_, higher_tail) = higher_slice.split_at_mut(higher_start - lower_end);
    let (trunc_higher, _) = higher_tail.split_at_mut(higher_end - higher_start);
    proof {
        assert(trunc_lower@ =~= before.subrange(lower_start as int, lower_end as int));
        assert(trunc_higher@ =~= before.subrange(higher_start as int, higher_end as int));
    }
    if a_is_lower {
        (trunc_lower, trunc_higher)
    } else {
        (trunc_higher, trunc_lower)
    }
}

} // verus!
