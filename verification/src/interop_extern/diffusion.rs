//! Entry points of the two operating modes, and the remap table that the
//! rewrite pass hands over.

use vstd::prelude::*;
use crate::diffusion::apply_results::{
    amounts_cleared,
    apply_diffusion_results,
    land_apart,
    lemma_amounts_cleared_wf,
    lemma_nodes_written_wf,
    lemma_scanned_nodes_land,
    lemma_written_node_is_shown,
    nodes_written,
    results_applied,
    shows_node,
};
use crate::diffusion::diffusion_job::{Graph, step_count};
use crate::diffusion::extract_graph::{
    DiffusionNode,
    PackedString,
    SymbolCodes,
    SymbolString,
    SymbolStringMut,
    extract_edges_and_nodes_in_parallel,
    extract_edges_and_nodes_in_place,
    extractable,
    extracted,
    lemma_in_place_nodes_keep_place,
    lemma_own_places_fit,
    lemma_placeholders_keep_wf,
    lemma_scan_wf,
    lemma_shape_decides_totals,
    lemma_shape_decides_tree,
    remap_fits,
    remap_is_fitting,
    same_place,
    same_shape,
    source_is_extractable,
    with_placeholders,
};
use crate::interop_extern::data::JaggedIndexing;

verus! {

/// An edge of the diffusion graph: `node_a_index` is the child,
/// `node_b_index` its parent.
#[derive(Copy, Clone, Debug)]
pub struct DiffusionEdge {
    pub node_a_index: i32,
    pub node_b_index: i32,
}

/// What the rewrite pass reports about a failed match.
#[derive(Copy, Clone, Debug)]
pub enum LSystemMatchErrorCode {
    /// The match went through.
    NoError,
    /// The match captured more parameters than there was room for.
    TooManyParameters,
    /// A symbol that no rule applies to was not marked so when matching.
    TrivialSymbolNotIndicatedAtMatchTime,
    /// A symbol that no rule applies to was not marked so when replacing.
    TrivialSymbolNotIndicatedAtReplacementTime,
}

/// What the rewrite pass decided for one source symbol. The diffusion reads
/// where the symbol and its parameters land in the target string, and
/// nothing else.
#[derive(Copy, Clone, Debug)]
pub struct LSystemSingleSymbolMatchData {
    /// Indexing inside the captured parameter memory.
    pub tmp_parameter_memory_space: JaggedIndexing,
    /// Set when no rule applies to this symbol.
    pub is_trivial: bool,
    /// The index of the matched rule among the rules possible for the symbol.
    pub matched_rule_index_in_possible: u8,
    /// The replacement pattern selected for the matched rule.
    pub selected_replacement_pattern: u8,
    /// The place reserved for the replacement symbols in the target string.
    pub replacement_symbol_indexing: JaggedIndexing,
    /// The place reserved for the replacement parameters in the target string.
    pub replacement_parameter_indexing: JaggedIndexing,
    /// What went wrong in the match, if anything; the diffusion does not
    /// look at it.
    pub error_code: LSystemMatchErrorCode,
}

/// The nodes after the first `n` edges were attached: the child of each
/// edge has the edge's parent as its parent.
pub open spec fn attached(nodes: Seq<DiffusionNode>, edges: Seq<DiffusionEdge>, n: nat) -> Seq<
    DiffusionNode,
>
    decreases n,
{
    if n == 0 {
        nodes
    } else {
        let so_far = attached(nodes, edges, (n - 1) as nat);
        let edge = edges[n - 1];
        so_far.update(
            edge.node_a_index as int,
            DiffusionNode {
                parent_node_index: edge.node_b_index,
                ..so_far[edge.node_a_index as int]
            },
        )
    }
}

/// Whether the first `n` edges can be attached: each names a node as its
/// child that has no parent yet, and names a parent.
pub open spec fn attachable(nodes: Seq<DiffusionNode>, edges: Seq<DiffusionEdge>, n: nat) -> bool
    decreases n,
{
    n == 0 || {
        let edge = edges[n - 1];
        &&& attachable(nodes, edges, (n - 1) as nat)
        &&& 0 <= edge.node_a_index < nodes.len()
        &&& 0 <= edge.node_b_index
        &&& attached(nodes, edges, (n - 1) as nat)[edge.node_a_index as int].parent_node_index < 0
    }
}

/// Attaching edges keeps the number of nodes.
pub proof fn lemma_attached_len(nodes: Seq<DiffusionNode>, edges: Seq<DiffusionEdge>, n: nat)
    requires
        attachable(nodes, edges, n),
    ensures
        attached(nodes, edges, n).len() == nodes.len(),
    decreases n,
{
    if n > 0 {
        lemma_attached_len(nodes, edges, (n - 1) as nat);
    }
}

/// What cannot be attached stays so when more edges follow.
pub proof fn lemma_attachable_prefix(
    nodes: Seq<DiffusionNode>,
    edges: Seq<DiffusionEdge>,
    i: nat,
    n: nat,
)
    requires
        i <= n,
        attachable(nodes, edges, n),
    ensures
        attachable(nodes, edges, i),
    decreases n,
{
    if i < n {
        lemma_attachable_prefix(nodes, edges, i, (n - 1) as nat);
    }
}

/// Makes a tree of nodes and the edges between them: every edge gives its
/// child the parent it names. Returns nothing where an edge names no node
/// as its child, names no parent, or names a child that has a parent
/// already.
pub fn tree_from_edges(nodes: &[DiffusionNode], edges: &[DiffusionEdge]) -> (tree: Option<
    Vec<DiffusionNode>,
>)
    ensures
        tree.is_some() == attachable(nodes@, edges@, edges@.len()),
        tree matches Option::Some(joined) ==> joined@ == attached(nodes@, edges@, edges@.len()),
{
    let mut joined: Vec<DiffusionNode> = Vec::with_capacity(nodes.len());
    let node_count: usize = nodes.len();
    let mut j: usize = 0;
    while j < node_count
        invariant
            j <= node_count == nodes@.len(),
            joined@ == nodes@.subrange(0, j as int),
        decreases node_count - j,
    {
        joined.push(nodes[j]);
        j = j + 1;
        assert(joined@ =~= nodes@.subrange(0, j as int));
    }
    assert(joined@ =~= nodes@);
    let edge_count: usize = edges.len();
    let mut k: usize = 0;
    while k < edge_count
        invariant
            k <= edge_count == edges@.len(),
            node_count == nodes@.len(),
            attachable(nodes@, edges@, k as nat),
            joined@ == attached(nodes@, edges@, k as nat),
        decreases edge_count - k,
    {
        proof {
            lemma_attached_len(nodes@, edges@, k as nat);
        }
        let edge: DiffusionEdge = edges[k];
        if edge.node_a_index < 0 || edge.node_a_index as u64 >= node_count as u64
            || edge.node_b_index < 0 || joined[edge.node_a_index as usize].parent_node_index >= 0 {
            proof {
                assert(!attachable(nodes@, edges@, (k + 1) as nat));
                if attachable(nodes@, edges@, edge_count as nat) {
                    lemma_attachable_prefix(nodes@, edges@, (k + 1) as nat, edge_count as nat);
                }
            }
            return None;
        }
        let child: usize = edge.node_a_index as usize;
        let node: DiffusionNode = joined[child];
        joined[child] = DiffusionNode { parent_node_index: edge.node_b_index, ..node };
        k = k + 1;
    }
    Some(joined)
}

/// The amounts of the graph read from `src`, after `steps` steps with the
/// multiplier `multiplier`, written to `target`.
pub open spec fn diffusion_result(
    src: PackedString,
    target: PackedString,
    codes: SymbolCodes,
    remap: Option<Seq<LSystemSingleSymbolMatchData>>,
    steps: nat,
    multiplier: u32,
    clear_amounts: bool,
) -> PackedString {
    let scan = extracted(src, codes, remap);
    let graph = Graph { nodes: scan.nodes, capacities: scan.capacities, multiplier };
    results_applied(
        target,
        graph,
        graph.diffused(scan.amounts, steps),
        codes.node,
        codes.amount,
        clear_amounts,
    )
}

/// What the diffusion in place makes of `src`: the graph is read from the
/// string, diffused, and written back where it was read; the amount
/// symbols lose their parameters.
pub open spec fn in_place_result(
    src: PackedString,
    codes: SymbolCodes,
    steps: nat,
    multiplier: u32,
) -> PackedString {
    diffusion_result(src, src, codes, Option::None, steps, multiplier, true)
}

/// What the diffusion makes of `target` in rewrite mode: the captured
/// amount symbols of the source leave their placeholders, and the graph
/// read from the source is diffused and written where the remap table
/// places it.
pub open spec fn rewrite_result(
    src: PackedString,
    target: PackedString,
    table: Seq<LSystemSingleSymbolMatchData>,
    codes: SymbolCodes,
    steps: nat,
    multiplier: u32,
) -> PackedString {
    diffusion_result(
        src,
        with_placeholders(target, src, codes.node, codes.amount, table, src.symbols.len()),
        codes,
        Option::Some(table),
        steps,
        multiplier,
        false,
    )
}

/// Diffuses the resources of the source string into the target string that
/// a rewrite pass made of it.
///
/// Succeeds exactly when a graph can be read from the source, the target
/// is well formed and the remap table serves both. A call that fails
/// leaves the target as it was.
pub fn perform_parallel_diffusion_internal(
    source_data: &SymbolString,
    target_data: &mut SymbolStringMut,
    match_singleton_data: &[LSystemSingleSymbolMatchData],
    diffusion_node_symbol: i32,
    diffusion_amount_symbol: i32,
    branch_open_symbol: i32,
    branch_close_symbol: i32,
    diffusion_steps: i32,
    diffusion_global_multiplier: u32,
) -> (ok: bool)
    ensures
        ok == (extractable(source_data@, diffusion_node_symbol) && old(target_data)@.wf()
            && remap_fits(
            source_data@,
            diffusion_node_symbol,
            diffusion_amount_symbol,
            match_singleton_data@,
            old(target_data)@.symbols.len(),
            old(target_data)@.parameters.len(),
        )),
        ok ==> final(target_data)@ == rewrite_result(
            source_data@,
            old(target_data)@,
            match_singleton_data@,
            SymbolCodes {
                node: diffusion_node_symbol,
                amount: diffusion_amount_symbol,
                open: branch_open_symbol,
                close: branch_close_symbol,
            },
            step_count(diffusion_steps),
            diffusion_global_multiplier,
        ),
        ok ==> final(target_data)@.wf(),
        !ok ==> final(target_data)@ == old(target_data)@,
{
    if !source_is_extractable(source_data, diffusion_node_symbol) {
        return false;
    }
    if !target_data.borrowed().is_well_formed() {
        return false;
    }
    if !remap_is_fitting(
        source_data,
        &target_data.borrowed(),
        match_singleton_data,
        diffusion_node_symbol,
        diffusion_amount_symbol,
    ) {
        return false;
    }
    let ghost src = source_data@;
    let ghost target = target_data@;
    let ghost table = match_singleton_data@;
    let ghost codes = SymbolCodes {
        node: diffusion_node_symbol,
        amount: diffusion_amount_symbol,
        open: branch_open_symbol,
        close: branch_close_symbol,
    };
    proof {
        lemma_placeholders_keep_wf(
            target,
            src,
            codes.node,
            codes.amount,
            table,
            src.symbols.len(),
        );
        lemma_scanned_nodes_land(
            src,
            codes,
            Option::Some(table),
            src.symbols.len(),
            target.symbols.len(),
            target.parameters.len(),
        );
    }
    let (mut diffusion_config, mut diffusion_amounts) = extract_edges_and_nodes_in_parallel(
        source_data,
        target_data,
        match_singleton_data,
        diffusion_node_symbol,
        diffusion_amount_symbol,
        branch_open_symbol,
        branch_close_symbol,
    );
    diffusion_config.diffusion_global_multiplier = diffusion_global_multiplier;
    let diffuse_job_ref = diffusion_config.borrowed();
    let mut mut_diffuse_amount_data = diffusion_amounts.borrowed_mut();

    diffuse_job_ref.diffuse_between(&mut mut_diffuse_amount_data, diffusion_steps);

    apply_diffusion_results(
        diffuse_job_ref,
        &mut_diffuse_amount_data,
        target_data,
        diffusion_node_symbol,
        diffusion_amount_symbol,
        false,
    );
    true
}

/// Diffuses the resources of the string and writes them back in place.
///
/// Succeeds exactly when a graph can be read from the string. A call that
/// fails leaves the string as it was.
pub fn perform_in_place_diffusion_internal(
    source_data: &mut SymbolStringMut,
    diffusion_node_symbol: i32,
    diffusion_amount_symbol: i32,
    branch_open_symbol: i32,
    branch_close_symbol: i32,
    diffusion_steps: i32,
    diffusion_global_multiplier: u32,
) -> (ok: bool)
    ensures
        ok == extractable(old(source_data)@, diffusion_node_symbol),
        ok ==> final(source_data)@ == in_place_result(
            old(source_data)@,
            SymbolCodes {
                node: diffusion_node_symbol,
                amount: diffusion_amount_symbol,
                open: branch_open_symbol,
                close: branch_close_symbol,
            },
            step_count(diffusion_steps),
            diffusion_global_multiplier,
        ),
        ok ==> final(source_data)@.wf(),
        !ok ==> final(source_data)@ == old(source_data)@,
{
    if !source_is_extractable(&source_data.borrowed(), diffusion_node_symbol) {
        return false;
    }
    let ghost src = source_data@;
    let ghost codes = SymbolCodes {
        node: diffusion_node_symbol,
        amount: diffusion_amount_symbol,
        open: branch_open_symbol,
        close: branch_close_symbol,
    };
    proof {
        lemma_own_places_fit(src, codes.node);
        lemma_scanned_nodes_land(
            src,
            codes,
            Option::None,
            src.symbols.len(),
            src.symbols.len(),
            src.parameters.len(),
        );
    }
    let (mut diffusion_config, mut diffusion_amounts) = extract_edges_and_nodes_in_place(
        source_data,
        diffusion_node_symbol,
        diffusion_amount_symbol,
        branch_open_symbol,
        branch_close_symbol,
    );
    diffusion_config.diffusion_global_multiplier = diffusion_global_multiplier;
    let diffuse_job_ref = diffusion_config.borrowed();
    let mut mut_diffuse_amount_data = diffusion_amounts.borrowed_mut();

    diffuse_job_ref.diffuse_between(&mut mut_diffuse_amount_data, diffusion_steps);

    apply_diffusion_results(
        diffuse_job_ref,
        &mut_diffuse_amount_data,
        source_data,
        diffusion_node_symbol,
        diffusion_amount_symbol,
        true,
    );
    true
}

/// Writing back nodes that stand on node symbols with the symbols' own
/// descriptors changes neither the symbols nor the descriptors.
proof fn lemma_written_in_place_keeps_indexing(
    src: PackedString,
    nodes: Seq<DiffusionNode>,
    amounts: Seq<u32>,
    capacities: Seq<u32>,
    node_code: i32,
    upto: nat,
)
    requires
        src.wf(),
        upto <= nodes.len(),
        forall|j: int|
            0 <= j < nodes.len() ==> {
                let node = #[trigger] nodes[j];
                &&& 0 <= node.index_in_target < src.symbols.len()
                &&& src.symbols[node.index_in_target as int] == node_code
                &&& node.target_parameters == src.param_indexing[node.index_in_target as int]
            },
    ensures
        nodes_written(src, nodes, amounts, capacities, node_code, upto).symbols == src.symbols,
        nodes_written(src, nodes, amounts, capacities, node_code, upto).param_indexing
            == src.param_indexing,
    decreases upto,
{
    if upto > 0 {
        lemma_written_in_place_keeps_indexing(
            src,
            nodes,
            amounts,
            capacities,
            node_code,
            (upto - 1) as nat,
        );
        let node = nodes[upto - 1];
        let after = nodes_written(src, nodes, amounts, capacities, node_code, upto);
        assert(0 <= node.index_in_target < src.symbols.len());
        assert(after.symbols =~= src.symbols);
        assert(after.param_indexing =~= src.param_indexing);
    }
}

/// A diffusion in place keeps the tree: the string after it has the
/// symbols it had and the same descriptors at its node symbols, a graph can
/// be read from it again, and the nodes read then are the nodes read
/// before, in the same order, with the same parents and places.
pub proof fn lemma_in_place_keeps_tree(
    src: PackedString,
    codes: SymbolCodes,
    steps: nat,
    multiplier: u32,
)
    requires
        extractable(src, codes.node),
        codes.node != codes.amount,
    ensures
        ({
            let after = in_place_result(src, codes, steps, multiplier);
            let nodes = extracted(src, codes, Option::None).nodes;
            let nodes_after = extracted(after, codes, Option::None).nodes;
            &&& same_shape(src, after, codes.node)
            &&& extractable(after, codes.node)
            &&& nodes_after.len() == nodes.len()
            &&& forall|j: int|
                0 <= j < nodes.len() ==> same_place(#[trigger] nodes[j], nodes_after[j])
        }),
{
    let n = src.symbols.len();
    let scan = extracted(src, codes, Option::None);
    let graph = Graph { nodes: scan.nodes, capacities: scan.capacities, multiplier };
    let amounts = graph.diffused(scan.amounts, steps);
    let written = nodes_written(
        src,
        scan.nodes,
        amounts,
        scan.capacities,
        codes.node,
        scan.nodes.len(),
    );
    let after = amounts_cleared(written, codes.amount);
    assert(after == in_place_result(src, codes, steps, multiplier));
    lemma_in_place_nodes_keep_place(src, codes, n);
    lemma_written_in_place_keeps_indexing(
        src,
        scan.nodes,
        amounts,
        scan.capacities,
        codes.node,
        scan.nodes.len(),
    );
    lemma_own_places_fit(src, codes.node);
    lemma_scanned_nodes_land(src, codes, Option::None, n, n, src.parameters.len());
    lemma_nodes_written_wf(
        src,
        scan.nodes,
        amounts,
        scan.capacities,
        codes.node,
        scan.nodes.len(),
    );
    lemma_amounts_cleared_wf(written, codes.amount);
    assert(same_shape(src, after, codes.node));
    lemma_shape_decides_totals(src, after, codes.node, n);
    assert forall|i: int| 0 <= i < after.symbols.len() && #[trigger] after.symbols[i]
        == codes.node implies after.param_indexing[i].holds_data() by {
        assert(src.symbols[i] == codes.node);
    }
    lemma_shape_decides_tree(src, after, codes, Option::None, n);
}

/// In rewrite mode the target string shows every node that no later node
/// overwrites: where the remap table places the node stands the node
/// symbol, and its parameters hold the node's diffusion constant, the
/// amounts after the diffusion and the capacities.
pub proof fn lemma_rewrite_shows_node(
    src: PackedString,
    target: PackedString,
    table: Seq<LSystemSingleSymbolMatchData>,
    codes: SymbolCodes,
    steps: nat,
    multiplier: u32,
    j: int,
)
    requires
        extractable(src, codes.node),
        target.wf(),
        remap_fits(
            src,
            codes.node,
            codes.amount,
            table,
            target.symbols.len(),
            target.parameters.len(),
        ),
        0 <= j < extracted(src, codes, Option::Some(table)).nodes.len(),
        forall|k: int|
            j < k < extracted(src, codes, Option::Some(table)).nodes.len() ==> land_apart(
                #[trigger] extracted(src, codes, Option::Some(table)).nodes[k],
                extracted(src, codes, Option::Some(table)).nodes[j],
            ),
    ensures
        ({
            let scan = extracted(src, codes, Option::Some(table));
            let graph = Graph { nodes: scan.nodes, capacities: scan.capacities, multiplier };
            shows_node(
                rewrite_result(src, target, table, codes, steps, multiplier),
                scan.nodes[j],
                graph.diffused(scan.amounts, steps),
                scan.capacities,
                codes.node,
            )
        }),
{
    let n = src.symbols.len();
    let scan = extracted(src, codes, Option::Some(table));
    let graph = Graph { nodes: scan.nodes, capacities: scan.capacities, multiplier };
    let amounts = graph.diffused(scan.amounts, steps);
    let prepared = with_placeholders(target, src, codes.node, codes.amount, table, n);
    lemma_placeholders_keep_wf(target, src, codes.node, codes.amount, table, n);
    lemma_scan_wf(src, codes, Option::Some(table), n);
    lemma_scanned_nodes_land(
        src,
        codes,
        Option::Some(table),
        n,
        target.symbols.len(),
        target.parameters.len(),
    );
    graph.lemma_diffused_keeps_len(scan.amounts, steps);
    lemma_written_node_is_shown(
        prepared,
        scan.nodes,
        amounts,
        scan.capacities,
        codes.node,
        scan.nodes.len(),
        j,
    );
}

} // verus!
