use vstd::prelude::*;

verus! {

/// The ways in which the library refuses its input.
#[derive(Debug, Clone, Copy, PartialEq, Eq, Structural)]
pub enum ClusterError {
    /// A vertex was looked up that was never registered.
    NotFound,
    /// Coarsening or partitioning was asked for on zero vertices.
    EmptyInput,
    /// Zero partitions, more partitions than vertices, or an odd count where
    /// partitions are paired.
    InvalidPartitionCount,
    /// Partition offsets or an interval pairing that do not describe the line.
    InvalidLayout,
    /// Summed weights that do not fit a machine word.
    WeightOverflow,
}

} // verus!
