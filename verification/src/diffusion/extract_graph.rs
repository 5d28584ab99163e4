//! Packed symbol strings and the diffusion graph read from them.

use vstd::prelude::*;
use vstd::slice::slice_subrange;
use crate::binary32;
use crate::diffusion::diffusion_job::{DiffusionAmountData, DiffusionJob};
use crate::interop_extern::data::JaggedIndexing;
use crate::interop_extern::diffusion::LSystemSingleSymbolMatchData;

verus! {

/// What a packed symbol string holds: symbol codes, one parameter descriptor
/// for each symbol, and the flat parameter array that the descriptors address.
pub ghost struct PackedString {
    pub symbols: Seq<i32>,
    pub param_indexing: Seq<JaggedIndexing>,
    pub parameters: Seq<u32>,
}

impl PackedString {
    /// One descriptor for each symbol, and no descriptor reaches beyond the
    /// parameter array.
    pub open spec fn wf(self) -> bool {
        &&& self.symbols.len() == self.param_indexing.len()
        &&& forall|i: int|
            0 <= i < self.param_indexing.len() ==> (#[trigger] self.param_indexing[i]).fits(
                self.parameters.len(),
            )
    }

    /// The parameters of the symbol at `i`.
    pub open spec fn params_of(self, i: int) -> Seq<u32> {
        self.param_indexing[i].slice_of(self.parameters)
    }
}

/// The four symbol codes that the diffusion gives a meaning to. A symbol is
/// tested against them in this order, so a code given twice counts as the
/// first of its meanings.
pub ghost struct SymbolCodes {
    pub node: i32,
    pub amount: i32,
    pub open: i32,
    pub close: i32,
}

/// A packed symbol string, borrowed for reading.
pub struct SymbolString<'a> {
    pub symbols: &'a [i32],
    pub param_indexing: &'a [JaggedIndexing],
    pub parameters: &'a [u32],
}

/// A packed symbol string, borrowed for writing.
pub struct SymbolStringMut<'a> {
    pub symbols: &'a mut [i32],
    pub param_indexing: &'a mut [JaggedIndexing],
    pub parameters: &'a mut [u32],
}

impl<'a> View for SymbolString<'a> {
    type V = PackedString;

    open spec fn view(&self) -> PackedString {
        PackedString {
            symbols: self.symbols@,
            param_indexing: self.param_indexing@,
            parameters: self.parameters@,
        }
    }
}

impl<'a> View for SymbolStringMut<'a> {
    type V = PackedString;

    open spec fn view(&self) -> PackedString {
        PackedString {
            symbols: self.symbols@,
            param_indexing: self.param_indexing@,
            parameters: self.parameters@,
        }
    }
}

impl SymbolStringMut<'_> {
    /// The same string, borrowed for reading.
    pub fn borrowed(&self) -> (r: SymbolString)
        ensures
            r@ == self@,
    {
        SymbolString {
            symbols: self.symbols,
            param_indexing: self.param_indexing,
            parameters: self.parameters,
        }
    }
}

/// Reading a packed symbol string.
pub trait SymbolStringRead {
    /// What the string holds.
    spec fn packed(&self) -> PackedString;

    /// The parameter at `index_in_param` of the run that `param_index`
    /// addresses.
    fn param_for(&self, param_index: JaggedIndexing, index_in_param: usize) -> (r: u32)
        requires
            0 <= param_index.index,
            index_in_param < param_index.length,
            param_index.fits(self.packed().parameters.len()),
        ensures
            r == self.packed().parameters[param_index.index + index_in_param],
    ;

    /// The number of symbols.
    fn len(&self) -> (r: usize)
        ensures
            r == self.packed().symbols.len(),
    ;

    /// The symbol at `index`.
    fn symbol_at(&self, index: usize) -> (r: i32)
        requires
            index < self.packed().symbols.len(),
        ensures
            r == self.packed().symbols[index as int],
    ;

    /// The run of parameters that `param_index` addresses; empty for a
    /// negative index.
    fn take_slice(&self, param_index: JaggedIndexing) -> (r: &[u32])
        requires
            param_index.fits(self.packed().parameters.len()),
        ensures
            r@ == param_index.slice_of(self.packed().parameters),
    ;

    /// The parameters of the symbol at `symbol_index`.
    fn take_param_slice(&self, symbol_index: usize) -> (r: &[u32])
        requires
            self.packed().wf(),
            symbol_index < self.packed().symbols.len(),
        ensures
            r@ == self.packed().params_of(symbol_index as int),
    ;
}

/// Writing the parameters of a packed symbol string.
pub trait SymbolStringWrite: SymbolStringRead {
    /// Puts `new_value` at `index_in_param` of the run that `param_index`
    /// addresses, and changes nothing else.
    fn set_param_for(&mut self, param_index: JaggedIndexing, index_in_param: usize, new_value: u32)
        requires
            0 <= param_index.index,
            index_in_param < param_index.length,
            param_index.fits(old(self).packed().parameters.len()),
        ensures
            final(self).packed() == (PackedString {
                parameters: old(self).packed().parameters.update(
                    param_index.index + index_in_param,
                    new_value,
                ),
                ..old(self).packed()
            }),
    ;

    /// The parameters of the symbol at `symbol_index`, to write. What is
    /// written to them stands in the string; the rest of the string stays.
    fn take_param_slice_mut(&mut self, symbol_index: usize) -> (r: &mut [u32])
        requires
            old(self).packed().wf(),
            symbol_index < old(self).packed().symbols.len(),
        ensures
            r@ == old(self).packed().params_of(symbol_index as int),
            final(self).packed().symbols == old(self).packed().symbols,
            final(self).packed().param_indexing == old(self).packed().param_indexing,
            final(self).packed().parameters == old(self).packed().parameters.subrange(
                0,
                old(self).packed().param_indexing[symbol_index as int].start(),
            ) + final(r)@ + old(self).packed().parameters.subrange(
                old(self).packed().param_indexing[symbol_index as int].end(),
                old(self).packed().parameters.len() as int,
            ),
    ;
}

impl SymbolStringRead for SymbolString<'_> {
    open spec fn packed(&self) -> PackedString {
        self@
    }

    fn param_for(&self, param_index: JaggedIndexing, index_in_param: usize) -> (r: u32) {
        let true_index: usize = param_index.index as usize + index_in_param;
        self.parameters[true_index]
    }

    fn len(&self) -> (r: usize) {
        self.symbols.len()
    }

    fn symbol_at(&self, index: usize) -> (r: i32) {
        self.symbols[index]
    }

    fn take_slice(&self, param_index: JaggedIndexing) -> (r: &[u32]) {
        if param_index.index < 0 {
            slice_subrange(self.parameters, 0, 0)
        } else {
            let true_index: usize = param_index.index as usize;
            slice_subrange(self.parameters, true_index, true_index + param_index.length as usize)
        }
    }

    fn take_param_slice(&self, symbol_index: usize) -> (r: &[u32]) {
        let param_index: JaggedIndexing = self.param_indexing[symbol_index];
        assert(param_index.fits(self@.parameters.len()));
        self.take_slice(param_index)
    }
}

impl SymbolStringRead for SymbolStringMut<'_> {
    open spec fn packed(&self) -> PackedString {
        self@
    }

    fn param_for(&self, param_index: JaggedIndexing, index_in_param: usize) -> (r: u32) {
        let true_index: usize = param_index.index as usize + index_in_param;
        self.parameters[true_index]
    }

    fn len(&self) -> (r: usize) {
        self.symbols.len()
    }

    fn symbol_at(&self, index: usize) -> (r: i32) {
        self.symbols[index]
    }

    fn take_slice(&self, param_index: JaggedIndexing) -> (r: &[u32]) {
        if param_index.index < 0 {
            slice_subrange(self.parameters, 0, 0)
        } else {
            let true_index: usize = param_index.index as usize;
            slice_subrange(self.parameters, true_index, true_index + param_index.length as usize)
        }
    }

    fn take_param_slice(&self, symbol_index: usize) -> (r: &[u32]) {
        let param_index: JaggedIndexing = self.param_indexing[symbol_index];
        assert(param_index.fits(self@.parameters.len()));
        self.take_slice(param_index)
    }
}

impl SymbolStringWrite for SymbolStringMut<'_> {
    fn set_param_for(&mut self, param_index: JaggedIndexing, index_in_param: usize, new_value: u32) {
        let true_index: usize = param_index.index as usize + index_in_param;
        self.parameters[true_index] = new_value;
    }

    fn take_param_slice_mut(&mut self, symbol_index: usize) -> (r: &mut [u32]) {
        let param_index: JaggedIndexing = self.param_indexing[symbol_index];
        assert(param_index.fits(self@.parameters.len()));
        if param_index.index < 0 {
            let (none, _) = self.parameters.split_at_mut(0);
            none
        } else {
            let true_index: usize = param_index.index as usize;
            let (_, from_start) = self.parameters.split_at_mut(true_index);
            let (params, _) = from_start.split_at_mut(param_index.length as usize);
            params
        }
    }
}

impl SymbolString<'_> {
    /// Tells whether the string has one descriptor for each symbol and no
    /// descriptor that reaches beyond its parameters.
    pub fn is_well_formed(&self) -> (ok: bool)
        ensures
            ok == self@.wf(),
    {
        let n: usize = self.symbols.len();
        let param_len: usize = self.parameters.len();
        if self.param_indexing.len() != n {
            return false;
        }
        let mut i: usize = 0;
        while i < n
            invariant
                i <= n == self@.param_indexing.len() == self@.symbols.len(),
                param_len == self@.parameters.len(),
                forall|k: int|
                    0 <= k < i ==> (#[trigger] self@.param_indexing[k]).fits(param_len as nat),
            decreases n - i,
        {
            let d: JaggedIndexing = self.param_indexing[i];
            if d.index >= 0 && d.index as u64 + d.length as u64 > param_len as u64 {
                assert(!self@.param_indexing[i as int].fits(param_len as nat));
                return false;
            }
            i = i + 1;
        }
        true
    }
}

/// A node of the diffusion graph. Nodes are kept in the order in which the
/// scan of the source string meets them, and a node is known by its place
/// in that order.
#[derive(Copy, Clone, Debug)]
pub struct DiffusionNode {
    /// The place of the parent node; negative for a node without parent.
    pub parent_node_index: i32,
    /// The symbol of the target string that receives the node.
    pub index_in_target: i32,
    /// The parameters of that symbol in the target string.
    pub target_parameters: JaggedIndexing,
    /// Where the node's resources start in the amount and capacity buffers.
    pub index_in_temp_amount_list: i32,
    /// How many resources the node holds.
    pub total_resource_types: i32,
    /// How readily the node exchanges with its neighbours, as a
    /// single-precision pattern.
    pub diffusion_constant: u32,
}

/// Whether `nodes` is a forest laid out over buffers of `amount_len` slots:
/// the places of the nodes fit a parent link, every parent comes before its
/// children, and every node's resources lie within the buffers.
pub open spec fn graph_wf(nodes: Seq<DiffusionNode>, amount_len: nat) -> bool {
    &&& nodes.len() <= i32::MAX
    &&& forall|j: int|
        0 <= j < nodes.len() ==> {
            let node = #[trigger] nodes[j];
            &&& -1 <= node.parent_node_index < j
            &&& 0 <= node.index_in_temp_amount_list
            &&& 0 <= node.total_resource_types
            &&& node.index_in_temp_amount_list + node.total_resource_types <= amount_len
        }
}

/// Whether every node keeps its resources in slots of its own, the nodes in
/// their order one after the other.
pub open spec fn slots_apart(nodes: Seq<DiffusionNode>) -> bool {
    forall|i: int, j: int|
        0 <= i < j < nodes.len() ==> (#[trigger] nodes[i]).index_in_temp_amount_list
            + nodes[i].total_resource_types <= (#[trigger] nodes[j]).index_in_temp_amount_list
}

/// How many resources a node symbol with the parameters `d` holds: one
/// diffusion constant comes first, then a pair for each resource.
pub open spec fn resource_count(d: JaggedIndexing) -> int {
    if d.length >= 1 {
        (d.length - 1) / 2
    } else {
        0
    }
}

/// The number of node symbols among the first `n` symbols.
pub open spec fn node_total(src: PackedString, node: i32, n: nat) -> nat
    decreases n,
{
    if n == 0 {
        0
    } else {
        node_total(src, node, (n - 1) as nat) + if src.symbols[n - 1] == node {
            1nat
        } else {
            0nat
        }
    }
}

/// The number of resources that the node symbols among the first `n`
/// symbols hold together.
pub open spec fn resource_total(src: PackedString, node: i32, n: nat) -> nat
    decreases n,
{
    if n == 0 {
        0
    } else {
        resource_total(src, node, (n - 1) as nat) + if src.symbols[n - 1] == node {
            resource_count(src.param_indexing[n - 1]) as nat
        } else {
            0nat
        }
    }
}

/// Whether a graph can be read from `src`: the string is well formed, every
/// node symbol has at least its diffusion constant, and the places of
/// symbols, nodes and resources fit the 32-bit fields that hold them.
pub open spec fn extractable(src: PackedString, node: i32) -> bool {
    &&& src.wf()
    &&& src.symbols.len() <= i32::MAX
    &&& forall|i: int|
        0 <= i < src.symbols.len() && #[trigger] src.symbols[i] == node
            ==> src.param_indexing[i].holds_data()
    &&& resource_total(src, node, src.symbols.len()) <= i32::MAX
}

/// Where the symbol at `i` of the source, with the parameters `d`, lands in
/// the target: at its own place without a remap table, else where the
/// table's entry says, with as many parameters as it has in the source.
pub open spec fn target_place(
    remap: Option<Seq<LSystemSingleSymbolMatchData>>,
    i: int,
    d: JaggedIndexing,
) -> (i32, JaggedIndexing) {
    match remap {
        Option::None => (i as i32, d),
        Option::Some(table) => (
            table[i].replacement_symbol_indexing.index,
            JaggedIndexing {
                index: table[i].replacement_parameter_indexing.index,
                length: d.length,
            },
        ),
    }
}

/// `amounts` after `extra` was added, element by element, to the `count`
/// slots from `start` on.
pub open spec fn accumulated(amounts: Seq<u32>, start: int, count: int, extra: Seq<u32>) -> Seq<
    u32,
> {
    Seq::new(
        amounts.len(),
        |k: int|
            if start <= k < start + count {
                binary32::add_spec(amounts[k], extra[k - start])
            } else {
                amounts[k]
            },
    )
}

/// The state of the scan over a source string.
pub ghost struct Scan {
    /// The nodes met so far.
    pub nodes: Seq<DiffusionNode>,
    /// The amounts of their resources, node after node.
    pub amounts: Seq<u32>,
    /// The capacities, at the same places.
    pub capacities: Seq<u32>,
    /// The parents saved at the branch openings that are not closed yet.
    pub saved_parents: Seq<i32>,
    /// The node that the next node or amount belongs to; -1 for none.
    pub current_parent: i32,
}

impl Scan {
    /// The state before the first symbol: nothing met, nothing saved, no
    /// node at the cursor.
    pub open spec fn start() -> Scan {
        Scan {
            nodes: Seq::empty(),
            amounts: Seq::empty(),
            capacities: Seq::empty(),
            saved_parents: Seq::empty(),
            current_parent: -1i32,
        }
    }

    /// The nodes form a forest over the buffers, each with slots of its
    /// own, and the cursor and every saved parent name a node met so far,
    /// or none.
    pub open spec fn wf(self) -> bool {
        &&& graph_wf(self.nodes, self.amounts.len())
        &&& slots_apart(self.nodes)
        &&& self.capacities.len() == self.amounts.len()
        &&& -1 <= self.current_parent < self.nodes.len()
        &&& forall|k: int|
            0 <= k < self.saved_parents.len() ==> -1 <= #[trigger] self.saved_parents[k]
                < self.nodes.len()
    }

    /// A node symbol: the node hangs below the cursor and becomes the
    /// cursor; its constant, amounts and capacities are read from its
    /// parameters.
    pub open spec fn read_node(
        self,
        src: PackedString,
        remap: Option<Seq<LSystemSingleSymbolMatchData>>,
        i: int,
    ) -> Scan {
        let d = src.param_indexing[i];
        let params = src.params_of(i);
        let place = target_place(remap, i, d);
        let count = resource_count(d);
        let node = DiffusionNode {
            parent_node_index: self.current_parent,
            index_in_target: place.0,
            target_parameters: place.1,
            index_in_temp_amount_list: self.amounts.len() as i32,
            total_resource_types: count as i32,
            diffusion_constant: params[0],
        };
        Scan {
            nodes: self.nodes.push(node),
            amounts: self.amounts + Seq::new(count as nat, |r: int| params[2 * r + 1]),
            capacities: self.capacities + Seq::new(count as nat, |r: int| params[2 * r + 2]),
            saved_parents: self.saved_parents,
            current_parent: self.nodes.len() as i32,
        }
    }

    /// An amount symbol: its parameters are added to the resources of the
    /// node at the cursor, as far as both reach. Without parameters or
    /// without a node at the cursor nothing changes.
    pub open spec fn fold_amount(self, src: PackedString, i: int) -> Scan {
        let extra = src.params_of(i);
        if extra.len() == 0 || self.current_parent < 0 {
            self
        } else {
            let node = self.nodes[self.current_parent as int];
            let count = if node.total_resource_types <= extra.len() {
                node.total_resource_types as int
            } else {
                extra.len() as int
            };
            Scan {
                amounts: accumulated(
                    self.amounts,
                    node.index_in_temp_amount_list as int,
                    count,
                    extra,
                ),
                ..self
            }
        }
    }

    /// A branch opening: the cursor is saved.
    pub open spec fn open_branch(self) -> Scan {
        Scan { saved_parents: self.saved_parents.push(self.current_parent), ..self }
    }

    /// A branch closing: the cursor saved last is restored. With nothing
    /// saved the closing is ignored.
    pub open spec fn close_branch(self) -> Scan {
        if self.saved_parents.len() == 0 {
            self
        } else {
            Scan {
                saved_parents: self.saved_parents.drop_last(),
                current_parent: self.saved_parents.last(),
                ..self
            }
        }
    }

    /// The state after the symbol at `i`.
    pub open spec fn step(
        self,
        src: PackedString,
        codes: SymbolCodes,
        remap: Option<Seq<LSystemSingleSymbolMatchData>>,
        i: int,
    ) -> Scan {
        let symbol = src.symbols[i];
        if symbol == codes.node {
            self.read_node(src, remap, i)
        } else if symbol == codes.amount {
            self.fold_amount(src, i)
        } else if symbol == codes.open {
            self.open_branch()
        } else if symbol == codes.close {
            self.close_branch()
        } else {
            self
        }
    }
}

/// The state of the scan after the first `n` symbols of `src`.
pub open spec fn scanned(
    src: PackedString,
    codes: SymbolCodes,
    remap: Option<Seq<LSystemSingleSymbolMatchData>>,
    n: nat,
) -> Scan
    decreases n,
{
    if n == 0 {
        Scan::start()
    } else {
        scanned(src, codes, remap, (n - 1) as nat).step(src, codes, remap, n - 1)
    }
}

/// The graph that `src` describes: the scan of the whole string.
pub open spec fn extracted(
    src: PackedString,
    codes: SymbolCodes,
    remap: Option<Seq<LSystemSingleSymbolMatchData>>,
) -> Scan {
    scanned(src, codes, remap, src.symbols.len())
}

/// The totals grow with the number of symbols counted.
pub proof fn lemma_totals_monotonic(src: PackedString, node: i32, i: nat, n: nat)
    requires
        i <= n,
    ensures
        node_total(src, node, i) <= node_total(src, node, n) <= n,
        resource_total(src, node, i) <= resource_total(src, node, n),
    decreases n,
{
    if n > 0 {
        if i < n {
            lemma_totals_monotonic(src, node, i, (n - 1) as nat);
        } else {
            lemma_totals_monotonic(src, node, (n - 1) as nat, (n - 1) as nat);
        }
    }
}

/// Every state of the scan over an extractable string is well formed, and
/// it holds as many nodes and resources as the totals say.
pub proof fn lemma_scan_wf(
    src: PackedString,
    codes: SymbolCodes,
    remap: Option<Seq<LSystemSingleSymbolMatchData>>,
    n: nat,
)
    requires
        extractable(src, codes.node),
        n <= src.symbols.len(),
    ensures
        scanned(src, codes, remap, n).wf(),
        scanned(src, codes, remap, n).nodes.len() == node_total(src, codes.node, n),
        scanned(src, codes, remap, n).amounts.len() == resource_total(src, codes.node, n),
    decreases n,
{
    if n > 0 {
        let before = scanned(src, codes, remap, (n - 1) as nat);
        let after = scanned(src, codes, remap, n);
        lemma_scan_wf(src, codes, remap, (n - 1) as nat);
        lemma_totals_monotonic(src, codes.node, n, src.symbols.len());
        lemma_totals_monotonic(src, codes.node, (n - 1) as nat, n);
        let symbol = src.symbols[n - 1];
        if symbol == codes.node {
            assert(src.param_indexing[n - 1].holds_data());
            assert forall|j: int| 0 <= j < after.nodes.len() implies {
                let node = #[trigger] after.nodes[j];
                &&& -1 <= node.parent_node_index < j
                &&& 0 <= node.index_in_temp_amount_list
                &&& 0 <= node.total_resource_types
                &&& node.index_in_temp_amount_list + node.total_resource_types
                    <= after.amounts.len()
            } by {
                if j < before.nodes.len() {
                    assert(after.nodes[j] == before.nodes[j]);
                }
            }
            assert forall|i: int, j: int| 0 <= i < j < after.nodes.len() implies (
            #[trigger] after.nodes[i]).index_in_temp_amount_list + after.nodes[i].total_resource_types
                <= (#[trigger] after.nodes[j]).index_in_temp_amount_list by {
                assert(after.nodes[i] == before.nodes[i]);
                if j < before.nodes.len() {
                    assert(after.nodes[j] == before.nodes[j]);
                }
            }
        }
    }
}

/// A diffusion graph that owns its nodes and capacities.
pub struct DiffusionJobOwned {
    pub nodes: Vec<DiffusionNode>,
    pub node_max_capacities: Vec<u32>,
    pub diffusion_global_multiplier: u32,
}

impl DiffusionJobOwned {
    /// The same graph, borrowed.
    pub fn borrowed(&self) -> (r: DiffusionJob)
        ensures
            r.nodes@ == self.nodes@,
            r.node_max_capacities@ == self.node_max_capacities@,
            r.diffusion_global_multiplier == self.diffusion_global_multiplier,
    {
        DiffusionJob {
            nodes: self.nodes.as_slice(),
            node_max_capacities: self.node_max_capacities.as_slice(),
            diffusion_global_multiplier: self.diffusion_global_multiplier,
        }
    }
}

/// Two amount buffers that own their storage, and the flag that tells which
/// of them is current.
pub struct DiffusionAmountDataOwned {
    pub node_amount_list_a: Vec<u32>,
    pub node_amount_list_b: Vec<u32>,
    pub latest_in_a: bool,
}

impl DiffusionAmountDataOwned {
    /// The same buffers, borrowed for writing. The flag is copied: which
    /// buffer is current after a diffusion is read from the borrowed value.
    pub fn borrowed_mut(&mut self) -> (r: DiffusionAmountData)
        ensures
            r.node_amount_list_a@ == old(self).node_amount_list_a@,
            r.node_amount_list_b@ == old(self).node_amount_list_b@,
            r.latest_in_a == old(self).latest_in_a,
            final(self).node_amount_list_a@ == final(r.node_amount_list_a)@,
            final(self).node_amount_list_b@ == final(r.node_amount_list_b)@,
            final(self).latest_in_a == old(self).latest_in_a,
    {
        DiffusionAmountData {
            node_amount_list_a: self.node_amount_list_a.as_mut_slice(),
            node_amount_list_b: self.node_amount_list_b.as_mut_slice(),
            latest_in_a: self.latest_in_a,
        }
    }
}

/// How many nodes and resources a source string holds.
pub struct GraphEstimate {
    pub node_count: usize,
    pub param_count: usize,
}

/// Whether the job and the buffers hold what the scan left, ready for the
/// first step: the scan is well formed, the job has its nodes and
/// capacities and the multiplier one, the first buffer has its amounts and
/// is current, and the second buffer is as long and holds zeros.
pub open spec fn holds_scan(r: (DiffusionJobOwned, DiffusionAmountDataOwned), scan: Scan) -> bool {
    &&& scan.wf()
    &&& r.0.nodes@ == scan.nodes
    &&& r.0.node_max_capacities@ == scan.capacities
    &&& r.0.diffusion_global_multiplier == binary32::ONE
    &&& r.1.node_amount_list_a@ == scan.amounts
    &&& r.1.node_amount_list_b@ == Seq::new(scan.amounts.len(), |k: int| 0u32)
    &&& r.1.latest_in_a
}

/// The remap table as the scan reads it.
pub open spec fn table_view(remap: Option<&[LSystemSingleSymbolMatchData]>) -> Option<
    Seq<LSystemSingleSymbolMatchData>,
> {
    match remap {
        Option::None => Option::None,
        Option::Some(table) => Option::Some(table@),
    }
}

/// Tells whether a graph can be read from the string.
pub fn source_is_extractable(source_symbols: &SymbolString, diffusion_node_symbol: i32) -> (ok:
    bool)
    ensures
        ok == extractable(source_symbols@, diffusion_node_symbol),
{
    let n: usize = source_symbols.symbols.len();
    let param_len: usize = source_symbols.parameters.len();
    if source_symbols.param_indexing.len() != n || n > 0x7fff_ffff {
        return false;
    }
    let ghost src = source_symbols@;
    let mut total: u64 = 0;
    let mut i: usize = 0;
    while i < n
        invariant
            src == source_symbols@,
            i <= n == src.symbols.len() == src.param_indexing.len(),
            n <= i32::MAX,
            param_len == src.parameters.len(),
            forall|k: int| 0 <= k < i ==> (#[trigger] src.param_indexing[k]).fits(param_len as nat),
            forall|k: int|
                0 <= k < i && #[trigger] src.symbols[k] == diffusion_node_symbol
                    ==> src.param_indexing[k].holds_data(),
            total == resource_total(src, diffusion_node_symbol, i as nat) <= i32::MAX,
        decreases n - i,
    {
        let d: JaggedIndexing = source_symbols.param_indexing[i];
        if d.index >= 0 && d.index as u64 + d.length as u64 > param_len as u64 {
            assert(!src.param_indexing[i as int].fits(param_len as nat));
            return false;
        }
        if source_symbols.symbols[i] == diffusion_node_symbol {
            if d.index < 0 || d.length < 1 {
                assert(!src.param_indexing[i as int].holds_data());
                return false;
            }
            total = total + ((d.length - 1) / 2) as u64;
            if total > 0x7fff_ffff {
                proof {
                    lemma_totals_monotonic(src, diffusion_node_symbol, (i + 1) as nat, n as nat);
                }
                return false;
            }
        }
        i = i + 1;
    }
    true
}

/// Counts the node symbols of the string and the resources they hold.
pub fn count_nodes_and_params(source_symbols: &SymbolString, diffusion_node_symbol: i32) -> (r:
    GraphEstimate)
    requires
        extractable(source_symbols@, diffusion_node_symbol),
    ensures
        r.node_count == node_total(
            source_symbols@,
            diffusion_node_symbol,
            source_symbols@.symbols.len(),
        ),
        r.param_count == resource_total(
            source_symbols@,
            diffusion_node_symbol,
            source_symbols@.symbols.len(),
        ),
{
    let n: usize = source_symbols.symbols.len();
    let ghost src = source_symbols@;
    let mut total_resource_need: usize = 0;
    let mut total_nodes: usize = 0;
    let mut i: usize = 0;
    while i < n
        invariant
            src == source_symbols@,
            extractable(src, diffusion_node_symbol),
            i <= n == src.symbols.len(),
            total_nodes == node_total(src, diffusion_node_symbol, i as nat),
            total_resource_need == resource_total(src, diffusion_node_symbol, i as nat),
        decreases n - i,
    {
        proof {
            lemma_totals_monotonic(src, diffusion_node_symbol, (i + 1) as nat, n as nat);
        }
        if source_symbols.symbols[i] == diffusion_node_symbol {
            let d: JaggedIndexing = source_symbols.param_indexing[i];
            assert(d.holds_data());
            total_resource_need = total_resource_need + ((d.length - 1) / 2) as usize;
            total_nodes = total_nodes + 1;
        }
        i = i + 1;
    }
    GraphEstimate { node_count: total_nodes, param_count: total_resource_need }
}

/// Appends the amounts and capacities of a node symbol, whose parameters
/// start at `start`, to the two buffers.
fn read_resources(
    source_symbols: &SymbolString,
    start: usize,
    count: usize,
    node_amounts: &mut Vec<u32>,
    node_capacities: &mut Vec<u32>,
)
    requires
        start + 2 * count + 1 <= source_symbols@.parameters.len(),
    ensures
        final(node_amounts)@ == old(node_amounts)@ + Seq::new(
            count as nat,
            |r: int| source_symbols@.parameters[start + 2 * r + 1],
        ),
        final(node_capacities)@ == old(node_capacities)@ + Seq::new(
            count as nat,
            |r: int| source_symbols@.parameters[start + 2 * r + 2],
        ),
{
    let ghost params = source_symbols@.parameters;
    let param_len: usize = source_symbols.parameters.len();
    let mut r: usize = 0;
    while r < count
        invariant
            r <= count,
            params == source_symbols@.parameters,
            start + 2 * count + 1 <= params.len() == param_len,
            node_amounts@ == old(node_amounts)@ + Seq::new(
                r as nat,
                |k: int| params[start + 2 * k + 1],
            ),
            node_capacities@ == old(node_capacities)@ + Seq::new(
                r as nat,
                |k: int| params[start + 2 * k + 2],
            ),
        decreases count - r,
    {
        node_amounts.push(source_symbols.parameters[start + 2 * r + 1]);
        node_capacities.push(source_symbols.parameters[start + 2 * r + 2]);
        r = r + 1;
        assert(node_amounts@ =~= old(node_amounts)@ + Seq::new(
            r as nat,
            |k: int| params[start + 2 * k + 1],
        ));
        assert(node_capacities@ =~= old(node_capacities)@ + Seq::new(
            r as nat,
            |k: int| params[start + 2 * k + 2],
        ));
    }
}

/// Adds the `count` parameters from `from` on to the amounts from `start`
/// on, element by element.
fn add_amounts(
    source_symbols: &SymbolString,
    from: usize,
    start: usize,
    count: usize,
    node_amounts: &mut Vec<u32>,
)
    requires
        from + count <= source_symbols@.parameters.len(),
        start + count <= old(node_amounts)@.len(),
    ensures
        final(node_amounts)@ == accumulated(
            old(node_amounts)@,
            start as int,
            count as int,
            source_symbols@.parameters.subrange(from as int, from + count),
        ),
{
    let ghost extra = source_symbols@.parameters.subrange(from as int, from + count);
    let param_len: usize = source_symbols.parameters.len();
    let amount_len: usize = node_amounts.len();
    let mut j: usize = 0;
    assert(node_amounts@ =~= accumulated(old(node_amounts)@, start as int, 0, extra));
    while j < count
        invariant
            j <= count,
            from + count <= source_symbols@.parameters.len() == param_len,
            start + count <= old(node_amounts)@.len() == amount_len,
            extra == source_symbols@.parameters.subrange(from as int, from + count),
            node_amounts@ == accumulated(old(node_amounts)@, start as int, j as int, extra),
        decreases count - j,
    {
        let sum: u32 = binary32::add(node_amounts[start + j], source_symbols.parameters[from + j]);
        node_amounts[start + j] = sum;
        j = j + 1;
        assert(node_amounts@ =~= accumulated(old(node_amounts)@, start as int, j as int, extra));
    }
}

/// Reads the diffusion graph from the source string in one pass.
///
/// Without a remap table a node lands where it stands in the source; with
/// one, where the table's entry for its symbol says.
pub fn extract_edges_and_nodes(
    source_symbols: &SymbolString,
    graph_estimate: GraphEstimate,
    diffusion_node_symbol: i32,
    diffusion_amount_symbol: i32,
    branch_open_symbol: i32,
    branch_close_symbol: i32,
    remap: Option<&[LSystemSingleSymbolMatchData]>,
) -> (r: (DiffusionJobOwned, DiffusionAmountDataOwned))
    requires
        extractable(source_symbols@, diffusion_node_symbol),
        remap matches Option::Some(table) ==> table@.len() == source_symbols@.symbols.len(),
    ensures
        holds_scan(
            r,
            extracted(
                source_symbols@,
                SymbolCodes {
                    node: diffusion_node_symbol,
                    amount: diffusion_amount_symbol,
                    open: branch_open_symbol,
                    close: branch_close_symbol,
                },
                table_view(remap),
            ),
        ),
{
    let ghost src = source_symbols@;
    let ghost codes = SymbolCodes {
        node: diffusion_node_symbol,
        amount: diffusion_amount_symbol,
        open: branch_open_symbol,
        close: branch_close_symbol,
    };
    let ghost table = table_view(remap);
    let n: usize = source_symbols.symbols.len();

    let mut nodes: Vec<DiffusionNode> = Vec::with_capacity(graph_estimate.node_count);
    let mut node_capacities: Vec<u32> = Vec::with_capacity(graph_estimate.param_count);
    let mut node_amounts: Vec<u32> = Vec::with_capacity(graph_estimate.param_count);

    let mut branch_symbol_parent_stack: Vec<i32> = Vec::with_capacity(5);
    let mut current_node_parent: i32 = -1;

    let mut symbol_index: usize = 0;
    while symbol_index < n
        invariant
            src == source_symbols@,
            table == table_view(remap),
            codes == (SymbolCodes {
                node: diffusion_node_symbol,
                amount: diffusion_amount_symbol,
                open: branch_open_symbol,
                close: branch_close_symbol,
            }),
            extractable(src, diffusion_node_symbol),
            remap matches Option::Some(t) ==> t@.len() == src.symbols.len(),
            symbol_index <= n == src.symbols.len(),
            scanned(src, codes, table, symbol_index as nat) == (Scan {
                nodes: nodes@,
                amounts: node_amounts@,
                capacities: node_capacities@,
                saved_parents: branch_symbol_parent_stack@,
                current_parent: current_node_parent,
            }),
        decreases n - symbol_index,
    {
        let ghost before = scanned(src, codes, table, symbol_index as nat);
        let ghost after = scanned(src, codes, table, (symbol_index + 1) as nat);
        proof {
            lemma_scan_wf(src, codes, table, symbol_index as nat);
            lemma_scan_wf(src, codes, table, (symbol_index + 1) as nat);
            lemma_totals_monotonic(src, codes.node, (symbol_index + 1) as nat, n as nat);
            assert(after == before.step(src, codes, table, symbol_index as int));
        }
        let symbol: i32 = source_symbols.symbols[symbol_index];

        if symbol == diffusion_node_symbol {
            let node_params: JaggedIndexing = source_symbols.param_indexing[symbol_index];
            assert(node_params.holds_data() && node_params.fits(src.parameters.len()));
            let start: usize = node_params.index as usize;
            let count: usize = ((node_params.length - 1) / 2) as usize;
            let (symbol_in_target, param_in_target) = match remap {
                Option::None => (symbol_index as i32, node_params),
                Option::Some(match_singletons) => {
                    let node_singleton = &match_singletons[symbol_index];
                    (
                        node_singleton.replacement_symbol_indexing.index,
                        JaggedIndexing {
                            index: node_singleton.replacement_parameter_indexing.index,
                            length: node_params.length,
                        },
                    )
                },
            };
            let new_node = DiffusionNode {
                parent_node_index: current_node_parent,
                index_in_target: symbol_in_target,
                target_parameters: param_in_target,
                index_in_temp_amount_list: node_amounts.len() as i32,
                total_resource_types: count as i32,
                diffusion_constant: source_symbols.parameters[start],
            };
            current_node_parent = nodes.len() as i32;
            read_resources(source_symbols, start, count, &mut node_amounts, &mut node_capacities);
            nodes.push(new_node);
            proof {
                let params = src.params_of(symbol_index as int);
                assert(params[0] == src.parameters[start as int]);
                assert(node_amounts@ =~= after.amounts);
                assert(node_capacities@ =~= after.capacities);
                assert(nodes@ =~= after.nodes);
            }
        } else if symbol == diffusion_amount_symbol {
            let amount_params: JaggedIndexing = source_symbols.param_indexing[symbol_index];
            assert(amount_params.fits(src.parameters.len()));
            if amount_params.index >= 0 && amount_params.length > 0 && current_node_parent >= 0 {
                let modified_node: DiffusionNode = nodes[current_node_parent as usize];
                let target_start_index: usize = modified_node.index_in_temp_amount_list as usize;
                let from: usize = amount_params.index as usize;
                let count: usize = if modified_node.total_resource_types as usize
                    <= amount_params.length as usize {
                    modified_node.total_resource_types as usize
                } else {
                    amount_params.length as usize
                };
                add_amounts(source_symbols, from, target_start_index, count, &mut node_amounts);
                proof {
                    let extra = src.params_of(symbol_index as int);
                    assert(node_amounts@ =~= accumulated(
                        before.amounts,
                        target_start_index as int,
                        count as int,
                        extra,
                    ));
                }
            }
        } else if symbol == branch_open_symbol {
            branch_symbol_parent_stack.push(current_node_parent);
        } else if symbol == branch_close_symbol {
            if branch_symbol_parent_stack.len() > 0 {
                let saved: Option<i32> = branch_symbol_parent_stack.pop();
                current_node_parent = saved.unwrap();
                assert(branch_symbol_parent_stack@ =~= before.saved_parents.drop_last());
            }
        }
        symbol_index = symbol_index + 1;
    }

    proof {
        lemma_scan_wf(src, codes, table, n as nat);
    }
    let amount_len: usize = node_amounts.len();
    let spare: Vec<u32> = vec![0u32; amount_len];
    assert(spare@ =~= Seq::new(amount_len as nat, |k: int| 0u32));
    (
        DiffusionJobOwned {
            nodes,
            node_max_capacities: node_capacities,
            diffusion_global_multiplier: binary32::ONE,
        },
        DiffusionAmountDataOwned {
            node_amount_list_a: node_amounts,
            node_amount_list_b: spare,
            latest_in_a: true,
        },
    )
}

/// Reads the diffusion graph of a string whose nodes are written back where
/// they stand.
pub fn extract_edges_and_nodes_in_place(
    in_place_symbols: &mut SymbolStringMut,
    diffusion_node_symbol: i32,
    diffusion_amount_symbol: i32,
    branch_open_symbol: i32,
    branch_close_symbol: i32,
) -> (r: (DiffusionJobOwned, DiffusionAmountDataOwned))
    requires
        extractable(old(in_place_symbols)@, diffusion_node_symbol),
    ensures
        final(in_place_symbols)@ == old(in_place_symbols)@,
        holds_scan(
            r,
            extracted(
                old(in_place_symbols)@,
                SymbolCodes {
                    node: diffusion_node_symbol,
                    amount: diffusion_amount_symbol,
                    open: branch_open_symbol,
                    close: branch_close_symbol,
                },
                Option::None,
            ),
        ),
{
    let read_borrow = in_place_symbols.borrowed();
    let graph_estimate = count_nodes_and_params(&read_borrow, diffusion_node_symbol);
    extract_edges_and_nodes(
        &read_borrow,
        graph_estimate,
        diffusion_node_symbol,
        diffusion_amount_symbol,
        branch_open_symbol,
        branch_close_symbol,
        Option::None,
    )
}

/// Whether the symbol at `i` is an amount symbol that carries parameters:
/// one whose amounts the scan folds into a node.
pub open spec fn is_captured_amount(src: PackedString, node: i32, amount: i32, i: int) -> bool {
    &&& src.symbols[i] != node
    &&& src.symbols[i] == amount
    &&& src.param_indexing[i].holds_data()
}

/// The target string after the amount symbol with the remap entry `entry`
/// was captured: where the entry points, an amount symbol without
/// parameters stands.
pub open spec fn placeholder_written(
    target: PackedString,
    entry: LSystemSingleSymbolMatchData,
    amount: i32,
) -> PackedString {
    let at = entry.replacement_symbol_indexing.index as int;
    PackedString {
        symbols: target.symbols.update(at, amount),
        param_indexing: target.param_indexing.update(
            at,
            JaggedIndexing { index: entry.replacement_parameter_indexing.index, length: 0 },
        ),
        parameters: target.parameters,
    }
}

/// The target string after the captured amount symbols among the first `n`
/// source symbols left their placeholders, in the order of the source.
pub open spec fn with_placeholders(
    target: PackedString,
    src: PackedString,
    node: i32,
    amount: i32,
    table: Seq<LSystemSingleSymbolMatchData>,
    n: nat,
) -> PackedString
    decreases n,
{
    if n == 0 {
        target
    } else {
        let so_far = with_placeholders(target, src, node, amount, table, (n - 1) as nat);
        if is_captured_amount(src, node, amount, n - 1) {
            placeholder_written(so_far, table[n - 1], amount)
        } else {
            so_far
        }
    }
}

/// Whether the placeholder of every captured amount symbol has its place in
/// a target string of `symbol_len` symbols and `param_len` parameters.
pub open spec fn placeholders_fit(
    src: PackedString,
    node: i32,
    amount: i32,
    table: Seq<LSystemSingleSymbolMatchData>,
    symbol_len: nat,
    param_len: nat,
) -> bool {
    forall|i: int|
        0 <= i < src.symbols.len() && #[trigger] is_captured_amount(src, node, amount, i) ==> {
            &&& 0 <= table[i].replacement_symbol_indexing.index < symbol_len
            &&& table[i].replacement_parameter_indexing.index <= param_len
        }
}

/// Placeholders keep a well-formed target string well formed and leave its
/// lengths and its parameters as they are.
pub proof fn lemma_placeholders_keep_wf(
    target: PackedString,
    src: PackedString,
    node: i32,
    amount: i32,
    table: Seq<LSystemSingleSymbolMatchData>,
    n: nat,
)
    requires
        target.wf(),
        n <= src.symbols.len(),
        placeholders_fit(src, node, amount, table, target.symbols.len(), target.parameters.len()),
    ensures
        with_placeholders(target, src, node, amount, table, n).wf(),
        with_placeholders(target, src, node, amount, table, n).symbols.len()
            == target.symbols.len(),
        with_placeholders(target, src, node, amount, table, n).parameters == target.parameters,
    decreases n,
{
    if n > 0 {
        lemma_placeholders_keep_wf(target, src, node, amount, table, (n - 1) as nat);
        let so_far = with_placeholders(target, src, node, amount, table, (n - 1) as nat);
        if is_captured_amount(src, node, amount, n - 1) {
            let after = placeholder_written(so_far, table[n - 1], amount);
            assert forall|i: int| 0 <= i < after.param_indexing.len() implies (
            #[trigger] after.param_indexing[i]).fits(after.parameters.len()) by {
                if i != table[n - 1].replacement_symbol_indexing.index {
                    assert(after.param_indexing[i] == so_far.param_indexing[i]);
                }
            }
        }
    }
}

/// Leaves in the target string a placeholder for every amount symbol of the
/// source that carries parameters: the amounts are folded into their node,
/// and what remains of the symbol holds none.
pub fn write_amount_placeholders(
    source_symbols: &SymbolString,
    target_symbols: &mut SymbolStringMut,
    match_singletons: &[LSystemSingleSymbolMatchData],
    diffusion_node_symbol: i32,
    diffusion_amount_symbol: i32,
)
    requires
        source_symbols@.wf(),
        old(target_symbols)@.wf(),
        match_singletons@.len() == source_symbols@.symbols.len(),
        placeholders_fit(
            source_symbols@,
            diffusion_node_symbol,
            diffusion_amount_symbol,
            match_singletons@,
            old(target_symbols)@.symbols.len(),
            old(target_symbols)@.parameters.len(),
        ),
    ensures
        final(target_symbols)@ == with_placeholders(
            old(target_symbols)@,
            source_symbols@,
            diffusion_node_symbol,
            diffusion_amount_symbol,
            match_singletons@,
            source_symbols@.symbols.len(),
        ),
{
    let ghost src = source_symbols@;
    let ghost table = match_singletons@;
    let ghost target = target_symbols@;
    let n: usize = source_symbols.symbols.len();
    let mut symbol_index: usize = 0;
    while symbol_index < n
        invariant
            src == source_symbols@,
            table == match_singletons@,
            target == old(target_symbols)@,
            src.wf(),
            target.wf(),
            table.len() == src.symbols.len(),
            placeholders_fit(
                src,
                diffusion_node_symbol,
                diffusion_amount_symbol,
                table,
                target.symbols.len(),
                target.parameters.len(),
            ),
            symbol_index <= n == src.symbols.len(),
            target_symbols@ == with_placeholders(
                target,
                src,
                diffusion_node_symbol,
                diffusion_amount_symbol,
                table,
                symbol_index as nat,
            ),
        decreases n - symbol_index,
    {
        proof {
            lemma_placeholders_keep_wf(
                target,
                src,
                diffusion_node_symbol,
                diffusion_amount_symbol,
                table,
                symbol_index as nat,
            );
        }
        let symbol: i32 = source_symbols.symbols[symbol_index];
        let params: JaggedIndexing = source_symbols.param_indexing[symbol_index];
        if symbol != diffusion_node_symbol && symbol == diffusion_amount_symbol && params.index
            >= 0 && params.length > 0 {
            assert(is_captured_amount(
                src,
                diffusion_node_symbol,
                diffusion_amount_symbol,
                symbol_index as int,
            ));
            let node_singleton = &match_singletons[symbol_index];
            let replacement_index: usize = node_singleton.replacement_symbol_indexing.index as usize;
            target_symbols.param_indexing[replacement_index] = JaggedIndexing {
                index: node_singleton.replacement_parameter_indexing.index,
                length: 0,
            };
            target_symbols.symbols[replacement_index] = diffusion_amount_symbol;
        }
        symbol_index = symbol_index + 1;
    }
}

/// Reads the diffusion graph of a source string whose nodes are written to
/// a target string, at the places that the remap table names, and leaves
/// the placeholders of the captured amount symbols in the target.
pub fn extract_edges_and_nodes_in_parallel(
    source_symbols: &SymbolString,
    target_symbols: &mut SymbolStringMut,
    match_singletons: &[LSystemSingleSymbolMatchData],
    diffusion_node_symbol: i32,
    diffusion_amount_symbol: i32,
    branch_open_symbol: i32,
    branch_close_symbol: i32,
) -> (r: (DiffusionJobOwned, DiffusionAmountDataOwned))
    requires
        extractable(source_symbols@, diffusion_node_symbol),
        old(target_symbols)@.wf(),
        match_singletons@.len() == source_symbols@.symbols.len(),
        placeholders_fit(
            source_symbols@,
            diffusion_node_symbol,
            diffusion_amount_symbol,
            match_singletons@,
            old(target_symbols)@.symbols.len(),
            old(target_symbols)@.parameters.len(),
        ),
    ensures
        final(target_symbols)@ == with_placeholders(
            old(target_symbols)@,
            source_symbols@,
            diffusion_node_symbol,
            diffusion_amount_symbol,
            match_singletons@,
            source_symbols@.symbols.len(),
        ),
        holds_scan(
            r,
            extracted(
                source_symbols@,
                SymbolCodes {
                    node: diffusion_node_symbol,
                    amount: diffusion_amount_symbol,
                    open: branch_open_symbol,
                    close: branch_close_symbol,
                },
                Option::Some(match_singletons@),
            ),
        ),
{
    let graph_estimate = count_nodes_and_params(source_symbols, diffusion_node_symbol);
    write_amount_placeholders(
        source_symbols,
        target_symbols,
        match_singletons,
        diffusion_node_symbol,
        diffusion_amount_symbol,
    );
    extract_edges_and_nodes(
        source_symbols,
        graph_estimate,
        diffusion_node_symbol,
        diffusion_amount_symbol,
        branch_open_symbol,
        branch_close_symbol,
        Option::Some(match_singletons),
    )
}

/// Whether every node symbol of `src` lands within a target string of
/// `symbol_len` symbols and `param_len` parameters: its symbol at an
/// existing place, its parameters within the parameter array.
pub open spec fn node_places_fit(
    src: PackedString,
    node: i32,
    remap: Option<Seq<LSystemSingleSymbolMatchData>>,
    symbol_len: nat,
    param_len: nat,
) -> bool {
    forall|i: int|
        0 <= i < src.symbols.len() && #[trigger] src.symbols[i] == node ==> {
            let place = target_place(remap, i, src.param_indexing[i]);
            &&& 0 <= place.0 < symbol_len
            &&& 0 <= place.1.index
            &&& place.1.index + place.1.length <= param_len
        }
}

/// Whether the remap table serves the source and a target string of
/// `symbol_len` symbols and `param_len` parameters: it has an entry for
/// each source symbol, and every node and every placeholder that the
/// entries place lies within the target.
pub open spec fn remap_fits(
    src: PackedString,
    node: i32,
    amount: i32,
    table: Seq<LSystemSingleSymbolMatchData>,
    symbol_len: nat,
    param_len: nat,
) -> bool {
    &&& table.len() == src.symbols.len()
    &&& node_places_fit(src, node, Option::Some(table), symbol_len, param_len)
    &&& placeholders_fit(src, node, amount, table, symbol_len, param_len)
}

/// Read in place, every node of an extractable string lands within the
/// string itself.
pub proof fn lemma_own_places_fit(src: PackedString, node: i32)
    requires
        extractable(src, node),
    ensures
        node_places_fit(src, node, Option::None, src.symbols.len(), src.parameters.len()),
{
    assert forall|i: int| 0 <= i < src.symbols.len() && #[trigger] src.symbols[i] == node implies {
        let place = target_place(Option::None, i, src.param_indexing[i]);
        &&& 0 <= place.0 < src.symbols.len()
        &&& 0 <= place.1.index
        &&& place.1.index + place.1.length <= src.parameters.len()
    } by {
        assert(src.param_indexing[i].holds_data());
        assert(src.param_indexing[i].fits(src.parameters.len()));
    }
}

/// Tells whether the remap table serves the source and the target string.
pub fn remap_is_fitting(
    source_symbols: &SymbolString,
    target_symbols: &SymbolString,
    match_singletons: &[LSystemSingleSymbolMatchData],
    diffusion_node_symbol: i32,
    diffusion_amount_symbol: i32,
) -> (ok: bool)
    requires
        source_symbols@.wf(),
    ensures
        ok == remap_fits(
            source_symbols@,
            diffusion_node_symbol,
            diffusion_amount_symbol,
            match_singletons@,
            target_symbols@.symbols.len(),
            target_symbols@.parameters.len(),
        ),
{
    let ghost src = source_symbols@;
    let ghost table = match_singletons@;
    let n: usize = source_symbols.symbols.len();
    let symbol_len: usize = target_symbols.symbols.len();
    let param_len: usize = target_symbols.parameters.len();
    if match_singletons.len() != n {
        return false;
    }
    let mut i: usize = 0;
    while i < n
        invariant
            src == source_symbols@,
            table == match_singletons@,
            src.wf(),
            i <= n == src.symbols.len() == table.len(),
            symbol_len == target_symbols@.symbols.len(),
            param_len == target_symbols@.parameters.len(),
            forall|k: int|
                0 <= k < i && #[trigger] src.symbols[k] == diffusion_node_symbol ==> {
                    let place = target_place(Option::Some(table), k, src.param_indexing[k]);
                    &&& 0 <= place.0 < symbol_len
                    &&& 0 <= place.1.index
                    &&& place.1.index + place.1.length <= param_len
                },
            forall|k: int|
                0 <= k < i && #[trigger] is_captured_amount(
                    src,
                    diffusion_node_symbol,
                    diffusion_amount_symbol,
                    k,
                ) ==> {
                    &&& 0 <= table[k].replacement_symbol_indexing.index < symbol_len
                    &&& table[k].replacement_parameter_indexing.index <= param_len
                },
        decreases n - i,
    {
        let symbol: i32 = source_symbols.symbols[i];
        let params: JaggedIndexing = source_symbols.param_indexing[i];
        let entry = &match_singletons[i];
        let symbol_at: i32 = entry.replacement_symbol_indexing.index;
        let params_at: i32 = entry.replacement_parameter_indexing.index;
        if symbol == diffusion_node_symbol {
            if symbol_at < 0 || symbol_at as u64 >= symbol_len as u64 || params_at < 0
                || params_at as u64 + params.length as u64 > param_len as u64 {
                assert(src.symbols[i as int] == diffusion_node_symbol);
                return false;
            }
        } else if symbol == diffusion_amount_symbol && params.index >= 0 && params.length > 0 {
            if symbol_at < 0 || symbol_at as u64 >= symbol_len as u64 || (params_at >= 0
                && params_at as u64 > param_len as u64) {
                assert(is_captured_amount(
                    src,
                    diffusion_node_symbol,
                    diffusion_amount_symbol,
                    i as int,
                ));
                return false;
            }
        }
        i = i + 1;
    }
    true
}

/// A branch closing that finds nothing saved leaves the scan as it is.
pub proof fn lemma_unmatched_close_is_ignored(
    src: PackedString,
    codes: SymbolCodes,
    remap: Option<Seq<LSystemSingleSymbolMatchData>>,
    n: nat,
)
    requires
        n < src.symbols.len(),
        src.symbols[n as int] == codes.close,
        codes.close != codes.node,
        codes.close != codes.amount,
        codes.close != codes.open,
        scanned(src, codes, remap, n).saved_parents.len() == 0,
    ensures
        scanned(src, codes, remap, n + 1) == scanned(src, codes, remap, n),
{
}

/// Whether two nodes agree in all but their diffusion constant: in their
/// parent, their place in the target and their resources' place in the
/// buffers.
pub open spec fn same_place(a: DiffusionNode, b: DiffusionNode) -> bool {
    &&& a.parent_node_index == b.parent_node_index
    &&& a.index_in_target == b.index_in_target
    &&& a.target_parameters == b.target_parameters
    &&& a.index_in_temp_amount_list == b.index_in_temp_amount_list
    &&& a.total_resource_types == b.total_resource_types
}

/// Whether two strings have the same symbols and give their node symbols
/// the same parameter descriptors.
pub open spec fn same_shape(a: PackedString, b: PackedString, node: i32) -> bool {
    &&& a.symbols == b.symbols
    &&& forall|i: int|
        0 <= i < a.symbols.len() && #[trigger] a.symbols[i] == node ==> a.param_indexing[i]
            == b.param_indexing[i]
}

/// The tree depends on the shape of the string alone: two strings with the
/// same symbols and the same descriptors at their node symbols give the
/// same nodes in the same order, with the same parents and places,
/// whatever their parameters hold.
pub proof fn lemma_shape_decides_tree(
    a: PackedString,
    b: PackedString,
    codes: SymbolCodes,
    remap: Option<Seq<LSystemSingleSymbolMatchData>>,
    n: nat,
)
    requires
        extractable(a, codes.node),
        extractable(b, codes.node),
        same_shape(a, b, codes.node),
        n <= a.symbols.len(),
    ensures
        ({
            let sa = scanned(a, codes, remap, n);
            let sb = scanned(b, codes, remap, n);
            &&& sa.nodes.len() == sb.nodes.len()
            &&& forall|j: int|
                0 <= j < sa.nodes.len() ==> same_place(#[trigger] sa.nodes[j], sb.nodes[j])
            &&& sa.amounts.len() == sb.amounts.len()
            &&& sa.saved_parents == sb.saved_parents
            &&& sa.current_parent == sb.current_parent
        }),
    decreases n,
{
    if n > 0 {
        lemma_shape_decides_tree(a, b, codes, remap, (n - 1) as nat);
        lemma_scan_wf(a, codes, remap, (n - 1) as nat);
        lemma_scan_wf(b, codes, remap, (n - 1) as nat);
        lemma_scan_wf(a, codes, remap, n);
        lemma_scan_wf(b, codes, remap, n);
        let pa = scanned(a, codes, remap, (n - 1) as nat);
        let pb = scanned(b, codes, remap, (n - 1) as nat);
        let sa = scanned(a, codes, remap, n);
        let sb = scanned(b, codes, remap, n);
        let symbol = a.symbols[n - 1];
        assert(symbol == b.symbols[n - 1]);
        if symbol == codes.node {
            assert(a.param_indexing[n - 1] == b.param_indexing[n - 1]);
            assert forall|j: int| 0 <= j < sa.nodes.len() implies same_place(
                #[trigger] sa.nodes[j],
                sb.nodes[j],
            ) by {
                if j < pa.nodes.len() {
                    assert(sa.nodes[j] == pa.nodes[j]);
                    assert(sb.nodes[j] == pb.nodes[j]);
                }
            }
        }
    }
}

/// A string that is read twice gives the same nodes twice.
pub proof fn lemma_unmodified_string_same_nodes(
    first: PackedString,
    second: PackedString,
    codes: SymbolCodes,
    remap: Option<Seq<LSystemSingleSymbolMatchData>>,
)
    requires
        first == second,
    ensures
        extracted(first, codes, remap).nodes == extracted(second, codes, remap).nodes,
{
}

/// Read in place, every node stands for a node symbol of the string and
/// lands on it, with the symbol's own parameter descriptor.
pub proof fn lemma_in_place_nodes_keep_place(src: PackedString, codes: SymbolCodes, n: nat)
    requires
        extractable(src, codes.node),
        n <= src.symbols.len(),
    ensures
        forall|j: int|
            0 <= j < scanned(src, codes, Option::None, n).nodes.len() ==> {
                let node = #[trigger] scanned(src, codes, Option::None, n).nodes[j];
                &&& 0 <= node.index_in_target < n
                &&& src.symbols[node.index_in_target as int] == codes.node
                &&& node.target_parameters == src.param_indexing[node.index_in_target as int]
            },
    decreases n,
{
    if n > 0 {
        lemma_in_place_nodes_keep_place(src, codes, (n - 1) as nat);
        let before = scanned(src, codes, Option::None, (n - 1) as nat);
        let after = scanned(src, codes, Option::None, n);
        if src.symbols[n - 1] == codes.node {
            assert forall|j: int| 0 <= j < after.nodes.len() implies {
                let node = #[trigger] after.nodes[j];
                &&& 0 <= node.index_in_target < n
                &&& src.symbols[node.index_in_target as int] == codes.node
                &&& node.target_parameters == src.param_indexing[node.index_in_target as int]
            } by {
                if j < before.nodes.len() {
                    assert(after.nodes[j] == before.nodes[j]);
                }
            }
        } else {
            assert(after.nodes == before.nodes);
        }
    }
}

/// Strings of the same shape hold the same number of nodes and resources.
pub proof fn lemma_shape_decides_totals(a: PackedString, b: PackedString, node: i32, n: nat)
    requires
        same_shape(a, b, node),
        n <= a.symbols.len(),
    ensures
        node_total(a, node, n) == node_total(b, node, n),
        resource_total(a, node, n) == resource_total(b, node, n),
    decreases n,
{
    if n > 0 {
        lemma_shape_decides_totals(a, b, node, (n - 1) as nat);
        assert(a.symbols[n - 1] == b.symbols[n - 1]);
    }
}

} // verus!
