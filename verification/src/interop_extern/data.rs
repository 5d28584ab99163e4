//! Jagged indexing: one flat array, addressed by (index, length) descriptors.

use vstd::prelude::*;
use vstd::slice::slice_subrange;

verus! {

/// Addresses a contiguous run of a flat array. A negative `index` stands for
/// "no data".
#[derive(Copy, Clone, Debug)]
pub struct JaggedIndexing {
    pub index: i32,
    pub length: u16,
}

impl JaggedIndexing {
    /// Whether the descriptor may be resolved in an array of `len` elements:
    /// it holds no data, or its run lies within the array.
    pub open spec fn fits(self, len: nat) -> bool {
        self.index < 0 || self.index + self.length <= len
    }

    /// Whether the descriptor addresses at least one element.
    pub open spec fn holds_data(self) -> bool {
        self.index >= 0 && self.length > 0
    }

    /// Where the addressed run starts; 0 for a descriptor without data.
    pub open spec fn start(self) -> int {
        if self.index < 0 {
            0
        } else {
            self.index as int
        }
    }

    /// Where the addressed run ends; 0 for a descriptor without data.
    pub open spec fn end(self) -> int {
        if self.index < 0 {
            0
        } else {
            self.index + self.length
        }
    }

    /// The number of elements that the descriptor addresses.
    pub open spec fn count(self) -> nat {
        if self.index < 0 {
            0
        } else {
            self.length as nat
        }
    }

    /// The run of `backing` that the descriptor addresses; empty for a
    /// negative index.
    pub open spec fn slice_of<T>(self, backing: Seq<T>) -> Seq<T> {
        if self.index < 0 {
            Seq::empty()
        } else {
            backing.subrange(self.index as int, self.index + self.length)
        }
    }
}

/// A descriptor that can be resolved against a backing array of `T`.
pub trait IndexesIn<T> {
    /// Whether the descriptor stays within `len` elements.
    spec fn resolves_in(&self, len: nat) -> bool;

    /// The elements that the descriptor picks from `backing`.
    spec fn resolved(&self, backing: Seq<T>) -> Seq<T>;

    /// The addressed part of `backing_data`.
    fn to_slice_ref<'a>(&self, backing_data: &'a [T]) -> (r: &'a [T])
        requires
            self.resolves_in(backing_data@.len()),
        ensures
            r@ == self.resolved(backing_data@),
    ;
}

impl<T> IndexesIn<T> for JaggedIndexing {
    open spec fn resolves_in(&self, len: nat) -> bool {
        self.fits(len)
    }

    open spec fn resolved(&self, backing: Seq<T>) -> Seq<T> {
        self.slice_of(backing)
    }

    fn to_slice_ref<'a>(&self, backing_data: &'a [T]) -> (r: &'a [T]) {
        if self.index < 0 {
            slice_subrange(backing_data, 0, 0)
        } else {
            let start: usize = self.index as usize;
            slice_subrange(backing_data, start, start + self.length as usize)
        }
    }
}

} // verus!
