//! Symbol strings as lists of elements, one symbol with its parameters each,
//! and the packing of such a list into the three arrays.

use vstd::prelude::*;
use crate::diffusion::extract_graph::{PackedString, SymbolString, SymbolStringMut};
use crate::interop_extern::data::{IndexesIn, JaggedIndexing};

verus! {

/// A symbol with its parameters, borrowed from a packed string.
pub struct SymbolElement<'a> {
    pub symbol: i32,
    pub params: &'a [u32],
}

/// A symbol that owns its parameters.
#[derive(Clone)]
pub struct SymbolElementOwned {
    pub symbol: i32,
    pub params: Vec<u32>,
}

/// A packed symbol string that owns its three arrays.
pub struct SymbolStringOwned {
    pub symbols: Vec<i32>,
    pub param_indexing: Vec<JaggedIndexing>,
    pub parameters: Vec<u32>,
}

impl View for SymbolStringOwned {
    type V = PackedString;

    open spec fn view(&self) -> PackedString {
        PackedString {
            symbols: self.symbols@,
            param_indexing: self.param_indexing@,
            parameters: self.parameters@,
        }
    }
}

impl SymbolStringOwned {
    /// The same string, borrowed for writing.
    pub fn borrow_mut(&mut self) -> (r: SymbolStringMut)
        ensures
            r@ == old(self)@,
            final(self).symbols@ == final(r.symbols)@,
            final(self).param_indexing@ == final(r.param_indexing)@,
            final(self).parameters@ == final(r.parameters)@,
    {
        SymbolStringMut {
            symbols: self.symbols.as_mut_slice(),
            param_indexing: self.param_indexing.as_mut_slice(),
            parameters: self.parameters.as_mut_slice(),
        }
    }

    /// The same string, borrowed for reading.
    pub fn borrow(&self) -> (r: SymbolString)
        ensures
            r@ == self@,
    {
        SymbolString {
            symbols: self.symbols.as_slice(),
            param_indexing: self.param_indexing.as_slice(),
            parameters: self.parameters.as_slice(),
        }
    }
}

/// The elements of a packed string: every symbol with its parameters.
pub fn to_elements<'a>(symbol_string: &'a SymbolString) -> (elements: Vec<SymbolElement<'a>>)
    requires
        symbol_string@.wf(),
    ensures
        elements@.len() == symbol_string@.symbols.len(),
        forall|i: int|
            0 <= i < elements@.len() ==> {
                &&& (#[trigger] elements@[i]).symbol == symbol_string@.symbols[i]
                &&& elements@[i].params@ == symbol_string@.params_of(i)
            },
{
    let n: usize = symbol_string.symbols.len();
    let mut elements: Vec<SymbolElement<'a>> = Vec::with_capacity(n);
    let mut symbol_index: usize = 0;
    while symbol_index < n
        invariant
            symbol_string@.wf(),
            symbol_index <= n == symbol_string@.symbols.len(),
            elements@.len() == symbol_index,
            forall|i: int|
                0 <= i < symbol_index ==> {
                    &&& (#[trigger] elements@[i]).symbol == symbol_string@.symbols[i]
                    &&& elements@[i].params@ == symbol_string@.params_of(i)
                },
        decreases n - symbol_index,
    {
        let symbol: i32 = symbol_string.symbols[symbol_index];
        let param_indexing: JaggedIndexing = symbol_string.param_indexing[symbol_index];
        assert(param_indexing.fits(symbol_string@.parameters.len()));
        let params = param_indexing.to_slice_ref(symbol_string.parameters);
        elements.push(SymbolElement { symbol, params });
        symbol_index = symbol_index + 1;
    }
    elements
}

/// The number of parameters that the first `n` elements hold together.
pub open spec fn packed_len(elements: Seq<SymbolElementOwned>, n: nat) -> nat
    decreases n,
{
    if n == 0 {
        0
    } else {
        packed_len(elements, (n - 1) as nat) + elements[n - 1].params@.len()
    }
}

/// Whether the elements can be packed: no element has more parameters than
/// a descriptor's length can say, and all parameters together do not reach
/// beyond what a descriptor's index can say.
pub open spec fn packable(elements: Seq<SymbolElementOwned>) -> bool {
    &&& forall|i: int|
        0 <= i < elements.len() ==> (#[trigger] elements[i]).params@.len() <= u16::MAX
    &&& packed_len(elements, elements.len()) <= i32::MAX
}

/// The parameter counts grow with the number of elements counted.
pub proof fn lemma_packed_len_monotonic(elements: Seq<SymbolElementOwned>, i: nat, n: nat)
    requires
        i <= n,
    ensures
        packed_len(elements, i) <= packed_len(elements, n),
    decreases n,
{
    if i < n {
        lemma_packed_len_monotonic(elements, i, (n - 1) as nat);
    }
}

/// Tells whether the elements can be packed.
pub fn is_packable(elements: &Vec<SymbolElementOwned>) -> (ok: bool)
    ensures
        ok == packable(elements@),
{
    let n: usize = elements.len();
    let mut total: u64 = 0;
    let mut i: usize = 0;
    while i < n
        invariant
            i <= n == elements@.len(),
            total == packed_len(elements@, i as nat) <= i32::MAX,
            forall|k: int| 0 <= k < i ==> (#[trigger] elements@[k]).params@.len() <= u16::MAX,
        decreases n - i,
    {
        let count: usize = elements[i].params.len();
        if count > 0xffff {
            return false;
        }
        total = total + count as u64;
        if total > 0x7fff_ffff {
            proof {
                lemma_packed_len_monotonic(elements@, (i + 1) as nat, n as nat);
            }
            return false;
        }
        i = i + 1;
    }
    true
}

/// Packs the elements into one string: the symbols in their order, the
/// parameters of all elements one after the other, and for each symbol the
/// descriptor of its own parameters.
pub fn from_elements(elements: Vec<SymbolElementOwned>) -> (packed: SymbolStringOwned)
    requires
        packable(elements@),
    ensures
        packed@.wf(),
        packed@.symbols.len() == elements@.len(),
        packed@.parameters.len() == packed_len(elements@, elements@.len()),
        forall|i: int|
            0 <= i < elements@.len() ==> {
                &&& #[trigger] packed@.symbols[i] == elements@[i].symbol
                &&& packed@.param_indexing[i].index == packed_len(elements@, i as nat)
                &&& packed@.param_indexing[i].length == elements@[i].params@.len()
                &&& packed@.params_of(i) == elements@[i].params@
            },
{
    let n: usize = elements.len();
    let mut symbols: Vec<i32> = Vec::with_capacity(n);
    let mut param_indexing: Vec<JaggedIndexing> = Vec::with_capacity(n);
    let mut parameters_packed: Vec<u32> = Vec::with_capacity(n);

    let mut i: usize = 0;
    while i < n
        invariant
            i <= n == elements@.len(),
            packable(elements@),
            symbols@.len() == i,
            param_indexing@.len() == i,
            parameters_packed@.len() == packed_len(elements@, i as nat),
            forall|k: int| 0 <= k < i ==> #[trigger] symbols@[k] == elements@[k].symbol,
            forall|k: int|
                0 <= k < i ==> {
                    let d = #[trigger] param_indexing@[k];
                    &&& d.index == packed_len(elements@, k as nat)
                    &&& d.length == elements@[k].params@.len()
                    &&& d.index + d.length <= parameters_packed@.len()
                    &&& d.slice_of(parameters_packed@) == elements@[k].params@
                },
        decreases n - i,
    {
        proof {
            lemma_packed_len_monotonic(elements@, (i + 1) as nat, n as nat);
        }
        let element = &elements[i];
        let start: usize = parameters_packed.len();
        let count: usize = element.params.len();
        let ghost indexing_before = param_indexing@;
        let ghost packed_before = parameters_packed@;
        symbols.push(element.symbol);
        param_indexing.push(JaggedIndexing { index: start as i32, length: count as u16 });

        let mut j: usize = 0;
        while j < count
            invariant
                j <= count == element.params@.len(),
                parameters_packed@ == packed_before + element.params@.subrange(0, j as int),
            decreases count - j,
        {
            parameters_packed.push(element.params[j]);
            j = j + 1;
            assert(parameters_packed@ =~= packed_before + element.params@.subrange(0, j as int));
        }
        proof {
            assert(element.params@.subrange(0, count as int) =~= element.params@);
            assert forall|k: int| 0 <= k < i + 1 implies {
                let d = #[trigger] param_indexing@[k];
                &&& d.index == packed_len(elements@, k as nat)
                &&& d.length == elements@[k].params@.len()
                &&& d.index + d.length <= parameters_packed@.len()
                &&& d.slice_of(parameters_packed@) == elements@[k].params@
            } by {
                let d = param_indexing@[k];
                if k < i {
                    assert(d == indexing_before[k]);
                    assert(d.slice_of(parameters_packed@) =~= d.slice_of(packed_before));
                } else {
                    assert(d.slice_of(parameters_packed@) =~= element.params@);
                }
            }
        }
        i = i + 1;
    }
    proof {
        assert forall|k: int| 0 <= k < n implies (#[trigger] param_indexing@[k]).fits(
            parameters_packed@.len(),
        ) by {}
    }
    SymbolStringOwned { symbols, param_indexing, parameters: parameters_packed }
}

} // verus!
