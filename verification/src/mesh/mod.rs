//! The routing mesh: latency measurements between PoPs.
pub mod latency_matrix;
pub mod probe;
