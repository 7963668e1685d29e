use vstd::prelude::*;

verus! {

/// Configuration errors of an M2L pass. Every one of them is fatal for the
/// pass and names the value, slot or node that failed.
#[derive(Debug, Clone, Copy, PartialEq, Eq, Structural)]
pub enum M2lError {
    /// The expansion order is zero, or its buffers do not fit in memory.
    InvalidExpansionOrder { expansion_order: usize },
    /// A sibling set does not hold exactly eight buffers.
    SiblingCount { found: usize },
    /// Sibling buffer `sibling` does not hold `size_real` coefficients.
    SiblingLength { sibling: usize, expected: usize, found: usize },
    /// The kernel table does not hold sixteen kernels of `size_real` coefficients.
    KernelLength { expected: usize, found: usize },
    /// A result or local buffer does not have the length the layout asks for.
    BufferLength { expected: usize, found: usize },
    /// A member of sibling `sibling`'s interaction list is not a halo child.
    HaloSlotMissing { sibling: usize, key: u64 },
    /// The scatter table and the halo do not have the same number of slots.
    ScatterTableLength { expected: usize, found: usize },
    /// A sibling index outside `0..8`: in the scatter table at halo slot
    /// `slot`, or in a list of sources at position `slot`.
    ScatterSibling { slot: usize, sibling: usize },
    /// No buffer is registered for the node `key`.
    BufferMissing { key: u64 },
}

} // verus!
