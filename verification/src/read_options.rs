//! How a reader uses memory.
use vstd::prelude::*;

verus! {

/// The bytes that a reader may keep in memory where nothing else is asked for.
pub const DEFAULT_MEMORY_BUDGET_BYTES: usize = 0x1000_0000;

/// What a reader is opened with.
#[derive(Clone, Copy, Debug, PartialEq, Eq, Structural)]
pub struct VectorIndexReaderOptions {
    /// The bytes that a reader may keep in memory.
    pub memory_budget_bytes: usize,
}

impl VectorIndexReaderOptions {
    /// Options with a memory budget.
    pub fn new(memory_budget_bytes: usize) -> (options: Self)
        ensures
            options.memory_budget_bytes == memory_budget_bytes,
    {
        VectorIndexReaderOptions { memory_budget_bytes }
    }
}

impl Default for VectorIndexReaderOptions {
    fn default() -> (options: Self)
        ensures
            options.memory_budget_bytes == DEFAULT_MEMORY_BUDGET_BYTES,
    {
        VectorIndexReaderOptions { memory_budget_bytes: DEFAULT_MEMORY_BUDGET_BYTES }
    }
}

} // verus!
