//! Classic operations-research algorithms, verified with Verus: bin packing,
//! the travelling salesman problem, and two dynamic programs.
pub mod notes;
pub mod random;
pub mod operation_research_algorithms;
pub mod bin_packing;
