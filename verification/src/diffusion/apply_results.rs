//! Writing the amounts after a diffusion back into a packed symbol string.

use vstd::prelude::*;
use crate::diffusion::diffusion_job::{DiffusionAmountData, DiffusionJob, Graph};
use crate::diffusion::extract_graph::{
    DiffusionNode,
    PackedString,
    SymbolCodes,
    SymbolStringMut,
    extractable,
    graph_wf,
    node_places_fit,
    scanned,
};
use crate::interop_extern::data::JaggedIndexing;
use crate::interop_extern::diffusion::LSystemSingleSymbolMatchData;

verus! {

/// Whether the node has its place in a target string of `symbol_len`
/// symbols and `param_len` parameters: its symbol exists, and its
/// parameters lie within the parameter array and hold the diffusion
/// constant and a pair for each resource.
pub open spec fn node_lands(node: DiffusionNode, symbol_len: nat, param_len: nat) -> bool {
    &&& 0 <= node.index_in_target < symbol_len
    &&& 0 <= node.target_parameters.index
    &&& node.target_parameters.index + node.target_parameters.length <= param_len
    &&& 0 <= node.total_resource_types
    &&& 2 * node.total_resource_types + 1 <= node.target_parameters.length
}

/// Whether every node has its place in the target string.
pub open spec fn nodes_land(nodes: Seq<DiffusionNode>, symbol_len: nat, param_len: nat) -> bool {
    forall|j: int| 0 <= j < nodes.len() ==> node_lands(#[trigger] nodes[j], symbol_len, param_len)
}

/// The parameter array after the node's constant and its first `upto`
/// resources were written: the constant first, then amount and capacity of
/// each resource in turn.
pub open spec fn node_encoded(
    params: Seq<u32>,
    node: DiffusionNode,
    amounts: Seq<u32>,
    capacities: Seq<u32>,
    upto: int,
) -> Seq<u32> {
    let base = node.target_parameters.index as int;
    let first = node.index_in_temp_amount_list as int;
    Seq::new(
        params.len(),
        |k: int|
            if k == base {
                node.diffusion_constant
            } else if base < k <= base + 2 * upto {
                if (k - base) % 2 == 1 {
                    amounts[first + (k - base - 1) / 2]
                } else {
                    capacities[first + (k - base - 1) / 2]
                }
            } else {
                params[k]
            },
    )
}

/// The target string after the node was written: at the node's place
/// stands the node symbol with the node's parameter descriptor, and the
/// parameters hold the node's constant, amounts and capacities.
pub open spec fn node_written(
    target: PackedString,
    node: DiffusionNode,
    amounts: Seq<u32>,
    capacities: Seq<u32>,
    node_code: i32,
) -> PackedString {
    PackedString {
        symbols: target.symbols.update(node.index_in_target as int, node_code),
        param_indexing: target.param_indexing.update(
            node.index_in_target as int,
            node.target_parameters,
        ),
        parameters: node_encoded(
            target.parameters,
            node,
            amounts,
            capacities,
            node.total_resource_types as int,
        ),
    }
}

/// The target string after the first `upto` nodes were written, in their
/// order.
pub open spec fn nodes_written(
    target: PackedString,
    nodes: Seq<DiffusionNode>,
    amounts: Seq<u32>,
    capacities: Seq<u32>,
    node_code: i32,
    upto: nat,
) -> PackedString
    decreases upto,
{
    if upto == 0 {
        target
    } else {
        node_written(
            nodes_written(target, nodes, amounts, capacities, node_code, (upto - 1) as nat),
            nodes[upto - 1],
            amounts,
            capacities,
            node_code,
        )
    }
}

/// The target string after every amount symbol lost its parameters.
pub open spec fn amounts_cleared(target: PackedString, amount_code: i32) -> PackedString {
    PackedString {
        symbols: target.symbols,
        param_indexing: Seq::new(
            target.param_indexing.len(),
            |i: int|
                if target.symbols[i] == amount_code {
                    JaggedIndexing { index: target.param_indexing[i].index, length: 0 }
                } else {
                    target.param_indexing[i]
                },
        ),
        parameters: target.parameters,
    }
}

/// The target string after the results were applied: every node written,
/// and then, where asked for, the amount symbols cleared.
pub open spec fn results_applied(
    target: PackedString,
    graph: Graph,
    amounts: Seq<u32>,
    node_code: i32,
    amount_code: i32,
    clear_amounts: bool,
) -> PackedString {
    let written = nodes_written(
        target,
        graph.nodes,
        amounts,
        graph.capacities,
        node_code,
        graph.nodes.len(),
    );
    if clear_amounts {
        amounts_cleared(written, amount_code)
    } else {
        written
    }
}

/// Writing nodes that have their place keeps the target string well formed
/// and of the same lengths.
pub proof fn lemma_nodes_written_wf(
    target: PackedString,
    nodes: Seq<DiffusionNode>,
    amounts: Seq<u32>,
    capacities: Seq<u32>,
    node_code: i32,
    upto: nat,
)
    requires
        target.wf(),
        upto <= nodes.len(),
        nodes_land(nodes, target.symbols.len(), target.parameters.len()),
    ensures
        nodes_written(target, nodes, amounts, capacities, node_code, upto).wf(),
        nodes_written(target, nodes, amounts, capacities, node_code, upto).symbols.len()
            == target.symbols.len(),
        nodes_written(target, nodes, amounts, capacities, node_code, upto).parameters.len()
            == target.parameters.len(),
    decreases upto,
{
    if upto > 0 {
        lemma_nodes_written_wf(target, nodes, amounts, capacities, node_code, (upto - 1) as nat);
        let before = nodes_written(
            target,
            nodes,
            amounts,
            capacities,
            node_code,
            (upto - 1) as nat,
        );
        let node = nodes[upto - 1];
        let after = node_written(before, node, amounts, capacities, node_code);
        assert(node_lands(node, target.symbols.len(), target.parameters.len()));
        assert forall|i: int| 0 <= i < after.param_indexing.len() implies (
        #[trigger] after.param_indexing[i]).fits(after.parameters.len()) by {
            if i != node.index_in_target {
                assert(after.param_indexing[i] == before.param_indexing[i]);
            }
        }
    }
}

/// Clearing the amount symbols keeps the target string well formed and of
/// the same lengths.
pub proof fn lemma_amounts_cleared_wf(target: PackedString, amount_code: i32)
    requires
        target.wf(),
    ensures
        amounts_cleared(target, amount_code).wf(),
        amounts_cleared(target, amount_code).symbols.len() == target.symbols.len(),
        amounts_cleared(target, amount_code).parameters.len() == target.parameters.len(),
{
    let after = amounts_cleared(target, amount_code);
    assert forall|i: int| 0 <= i < after.param_indexing.len() implies (
    #[trigger] after.param_indexing[i]).fits(after.parameters.len()) by {
        assert(target.param_indexing[i].fits(target.parameters.len()));
    }
}

/// Tells whether every node has its place in a target string of
/// `symbol_len` symbols and `param_len` parameters.
pub fn nodes_have_place(nodes: &[DiffusionNode], symbol_len: usize, param_len: usize) -> (ok: bool)
    ensures
        ok == nodes_land(nodes@, symbol_len as nat, param_len as nat),
{
    let node_count: usize = nodes.len();
    let mut j: usize = 0;
    while j < node_count
        invariant
            j <= node_count == nodes@.len(),
            forall|i: int|
                0 <= i < j ==> node_lands(#[trigger] nodes@[i], symbol_len as nat, param_len as nat),
        decreases node_count - j,
    {
        let node: DiffusionNode = nodes[j];
        let place: JaggedIndexing = node.target_parameters;
        if node.index_in_target < 0 || node.index_in_target as u64 >= symbol_len as u64
            || place.index < 0 || place.index as u64 + place.length as u64 > param_len as u64
            || node.total_resource_types < 0 || 2 * (node.total_resource_types as u64) + 1
            > place.length as u64 {
            assert(!node_lands(nodes@[j as int], symbol_len as nat, param_len as nat));
            return false;
        }
        j = j + 1;
    }
    true
}

/// Where every node symbol of the source lands within the target, every
/// node that the scan reads has its place there.
pub proof fn lemma_scanned_nodes_land(
    src: PackedString,
    codes: SymbolCodes,
    remap: Option<Seq<LSystemSingleSymbolMatchData>>,
    n: nat,
    symbol_len: nat,
    param_len: nat,
)
    requires
        extractable(src, codes.node),
        n <= src.symbols.len(),
        node_places_fit(src, codes.node, remap, symbol_len, param_len),
    ensures
        nodes_land(scanned(src, codes, remap, n).nodes, symbol_len, param_len),
    decreases n,
{
    if n > 0 {
        lemma_scanned_nodes_land(src, codes, remap, (n - 1) as nat, symbol_len, param_len);
        let before = scanned(src, codes, remap, (n - 1) as nat);
        let after = scanned(src, codes, remap, n);
        if src.symbols[n - 1] == codes.node {
            assert(src.param_indexing[n - 1].holds_data());
            assert forall|j: int| 0 <= j < after.nodes.len() implies node_lands(
                #[trigger] after.nodes[j],
                symbol_len,
                param_len,
            ) by {
                if j < before.nodes.len() {
                    assert(after.nodes[j] == before.nodes[j]);
                }
            }
        }
    }
}

/// Whether the target string shows the node: the node symbol stands at the
/// node's place with the node's parameter descriptor, and the parameters
/// there hold the node's diffusion constant and, for each resource, its
/// amount and its capacity.
pub open spec fn shows_node(
    target: PackedString,
    node: DiffusionNode,
    amounts: Seq<u32>,
    capacities: Seq<u32>,
    node_code: i32,
) -> bool {
    let base = node.target_parameters.index as int;
    let first = node.index_in_temp_amount_list as int;
    &&& target.symbols[node.index_in_target as int] == node_code
    &&& target.param_indexing[node.index_in_target as int] == node.target_parameters
    &&& target.parameters[base] == node.diffusion_constant
    &&& forall|r: int|
        0 <= r < node.total_resource_types ==> {
            &&& #[trigger] target.parameters[base + 2 * r + 1] == amounts[first + r]
            &&& target.parameters[base + 2 * r + 2] == capacities[first + r]
        }
}

/// Whether two nodes land on different symbols and write different
/// parameters of the target.
pub open spec fn land_apart(a: DiffusionNode, b: DiffusionNode) -> bool {
    &&& a.index_in_target != b.index_in_target
    &&& (a.target_parameters.index + 2 * a.total_resource_types + 1 <= b.target_parameters.index
        || b.target_parameters.index + 2 * b.total_resource_types + 1
        <= a.target_parameters.index)
}

/// A node that no later node overwrites is shown by the target string once
/// the nodes are written: its symbol is the node symbol, and its
/// parameters are its constant and the amounts and capacities handed in.
pub proof fn lemma_written_node_is_shown(
    target: PackedString,
    nodes: Seq<DiffusionNode>,
    amounts: Seq<u32>,
    capacities: Seq<u32>,
    node_code: i32,
    upto: nat,
    j: int,
)
    requires
        target.wf(),
        graph_wf(nodes, amounts.len()),
        capacities.len() == amounts.len(),
        nodes_land(nodes, target.symbols.len(), target.parameters.len()),
        0 <= j < upto <= nodes.len(),
        forall|k: int| j < k < upto ==> land_apart(#[trigger] nodes[k], nodes[j]),
    ensures
        shows_node(
            nodes_written(target, nodes, amounts, capacities, node_code, upto),
            nodes[j],
            amounts,
            capacities,
            node_code,
        ),
    decreases upto,
{
    let before = nodes_written(target, nodes, amounts, capacities, node_code, (upto - 1) as nat);
    let after = nodes_written(target, nodes, amounts, capacities, node_code, upto);
    let node = nodes[j];
    let last = nodes[upto - 1];
    lemma_nodes_written_wf(target, nodes, amounts, capacities, node_code, (upto - 1) as nat);
    assert(node_lands(node, target.symbols.len(), target.parameters.len()));
    assert(node_lands(last, target.symbols.len(), target.parameters.len()));
    let base = node.target_parameters.index as int;
    let first = node.index_in_temp_amount_list as int;
    if upto - 1 == j {
        assert forall|r: int| 0 <= r < node.total_resource_types implies {
            &&& #[trigger] after.parameters[base + 2 * r + 1] == amounts[first + r]
            &&& after.parameters[base + 2 * r + 2] == capacities[first + r]
        } by {
            let odd = base + 2 * r + 1;
            let even = base + 2 * r + 2;
            assert((odd - base) % 2 == 1 && (odd - base - 1) / 2 == r);
            assert((even - base) % 2 == 0 && (even - base - 1) / 2 == r);
        }
    } else {
        lemma_written_node_is_shown(
            target,
            nodes,
            amounts,
            capacities,
            node_code,
            (upto - 1) as nat,
            j,
        );
        assert(land_apart(last, node));
        assert(after.symbols[node.index_in_target as int] == before.symbols[node.index_in_target as int]);
        assert(after.param_indexing[node.index_in_target as int]
            == before.param_indexing[node.index_in_target as int]);
        assert(after.parameters[base] == before.parameters[base]);
        assert forall|r: int| 0 <= r < node.total_resource_types implies {
            &&& #[trigger] after.parameters[base + 2 * r + 1] == amounts[first + r]
            &&& after.parameters[base + 2 * r + 2] == capacities[first + r]
        } by {
            assert(before.parameters[base + 2 * r + 1] == amounts[first + r]);
            assert(after.parameters[base + 2 * r + 1] == before.parameters[base + 2 * r + 1]);
            assert(after.parameters[base + 2 * r + 2] == before.parameters[base + 2 * r + 2]);
        }
    }
}

/// Writes one node to the target string.
fn write_node(
    node: &DiffusionNode,
    amount_data: &[u32],
    node_max_capacities: &[u32],
    target_symbols: &mut SymbolStringMut,
    diffusion_node_symbol: i32,
)
    requires
        old(target_symbols)@.symbols.len() == old(target_symbols)@.param_indexing.len(),
        node_lands(*node, old(target_symbols)@.symbols.len(), old(target_symbols)@.parameters.len()),
        0 <= node.index_in_temp_amount_list,
        node.index_in_temp_amount_list + node.total_resource_types <= amount_data@.len(),
        node_max_capacities@.len() == amount_data@.len(),
    ensures
        final(target_symbols)@ == node_written(
            old(target_symbols)@,
            *node,
            amount_data@,
            node_max_capacities@,
            diffusion_node_symbol,
        ),
{
    let ghost before = target_symbols@;
    let node_index_in_target: usize = node.index_in_target as usize;
    target_symbols.symbols[node_index_in_target] = diffusion_node_symbol;
    target_symbols.param_indexing[node_index_in_target] = node.target_parameters;

    let base: usize = node.target_parameters.index as usize;
    let first: usize = node.index_in_temp_amount_list as usize;
    let count: usize = node.total_resource_types as usize;
    let param_len: usize = target_symbols.parameters.len();
    let amount_len: usize = amount_data.len();
    target_symbols.parameters[base] = node.diffusion_constant;
    assert(target_symbols.parameters@ =~= node_encoded(
        before.parameters,
        *node,
        amount_data@,
        node_max_capacities@,
        0,
    ));

    let mut resource_type: usize = 0;
    while resource_type < count
        invariant
            resource_type <= count == node.total_resource_types,
            base == node.target_parameters.index,
            first == node.index_in_temp_amount_list,
            base + 2 * count + 1 <= param_len == before.parameters.len(),
            first + count <= amount_len == amount_data@.len() == node_max_capacities@.len(),
            target_symbols.symbols@ == before.symbols.update(
                node_index_in_target as int,
                diffusion_node_symbol,
            ),
            target_symbols.param_indexing@ == before.param_indexing.update(
                node_index_in_target as int,
                node.target_parameters,
            ),
            target_symbols.parameters@ == node_encoded(
                before.parameters,
                *node,
                amount_data@,
                node_max_capacities@,
                resource_type as int,
            ),
        decreases count - resource_type,
    {
        let partial_param: usize = base + resource_type * 2 + 1;
        let resource_index: usize = first + resource_type;
        target_symbols.parameters[partial_param] = amount_data[resource_index];
        target_symbols.parameters[partial_param + 1] = node_max_capacities[resource_index];
        resource_type = resource_type + 1;
        assert(target_symbols.parameters@ =~= node_encoded(
            before.parameters,
            *node,
            amount_data@,
            node_max_capacities@,
            resource_type as int,
        ));
    }
}

/// Writes the amounts after the diffusion back to the target string.
///
/// Every node, in the order of the node list, puts the node symbol and its
/// parameter descriptor at its place in the target and encodes its
/// diffusion constant and, for each resource, the current amount and the
/// capacity into its parameters. With `clear_amounts` every amount symbol
/// of the target then loses its parameters, so that a later pass does not
/// add them again.
pub fn apply_diffusion_results(
    diffusion_job: DiffusionJob,
    double_buffered_data: &DiffusionAmountData,
    target_symbols: &mut SymbolStringMut,
    diffusion_node_symbol: i32,
    diffusion_amount_symbol: i32,
    clear_amounts: bool,
) -> (r: Option<()>)
    requires
        old(target_symbols)@.wf(),
        diffusion_job@.wf(double_buffered_data.latest().len()),
        nodes_land(
            diffusion_job@.nodes,
            old(target_symbols)@.symbols.len(),
            old(target_symbols)@.parameters.len(),
        ),
    ensures
        r.is_some(),
        final(target_symbols)@ == results_applied(
            old(target_symbols)@,
            diffusion_job@,
            double_buffered_data.latest(),
            diffusion_node_symbol,
            diffusion_amount_symbol,
            clear_amounts,
        ),
        final(target_symbols)@.wf(),
        final(target_symbols)@.symbols.len() == old(target_symbols)@.symbols.len(),
        final(target_symbols)@.parameters.len() == old(target_symbols)@.parameters.len(),
{
    let ghost before = target_symbols@;
    let ghost graph = diffusion_job@;
    let amount_data = double_buffered_data.get_latest_data();
    let ghost amounts = amount_data@;

    let node_count: usize = diffusion_job.nodes.len();
    let mut j: usize = 0;
    while j < node_count
        invariant
            j <= node_count == graph.nodes.len(),
            graph == diffusion_job@,
            amounts == amount_data@,
            before.wf(),
            graph.wf(amounts.len()),
            nodes_land(graph.nodes, before.symbols.len(), before.parameters.len()),
            target_symbols@ == nodes_written(
                before,
                graph.nodes,
                amounts,
                graph.capacities,
                diffusion_node_symbol,
                j as nat,
            ),
        decreases node_count - j,
    {
        proof {
            lemma_nodes_written_wf(
                before,
                graph.nodes,
                amounts,
                graph.capacities,
                diffusion_node_symbol,
                j as nat,
            );
        }
        let node = &diffusion_job.nodes[j];
        assert(node_lands(*node, before.symbols.len(), before.parameters.len()));
        write_node(
            node,
            amount_data,
            diffusion_job.node_max_capacities,
            target_symbols,
            diffusion_node_symbol,
        );
        j = j + 1;
    }
    let ghost written = target_symbols@;
    proof {
        lemma_nodes_written_wf(
            before,
            graph.nodes,
            amounts,
            graph.capacities,
            diffusion_node_symbol,
            node_count as nat,
        );
        lemma_amounts_cleared_wf(written, diffusion_amount_symbol);
    }
    if clear_amounts {
        let symbol_count: usize = target_symbols.symbols.len();
        let mut symbol_index: usize = 0;
        while symbol_index < symbol_count
            invariant
                symbol_index <= symbol_count == written.symbols.len(),
                written.wf(),
                target_symbols@.symbols == written.symbols,
                target_symbols@.parameters == written.parameters,
                target_symbols@.param_indexing.len() == written.param_indexing.len(),
                forall|i: int|
                    0 <= i < symbol_index ==> #[trigger] target_symbols@.param_indexing[i]
                        == amounts_cleared(written, diffusion_amount_symbol).param_indexing[i],
                forall|i: int|
                    symbol_index <= i < symbol_count ==> #[trigger] target_symbols@.param_indexing[i]
                        == written.param_indexing[i],
            decreases symbol_count - symbol_index,
        {
            let symbol: i32 = target_symbols.symbols[symbol_index];
            if symbol == diffusion_amount_symbol {
                let cleared = JaggedIndexing {
                    index: target_symbols.param_indexing[symbol_index].index,
                    length: 0,
                };
                target_symbols.param_indexing[symbol_index] = cleared;
            }
            symbol_index = symbol_index + 1;
        }
        assert(target_symbols@.param_indexing =~= amounts_cleared(
            written,
            diffusion_amount_symbol,
        ).param_indexing);
    }
    Some(())
}

} // verus!
