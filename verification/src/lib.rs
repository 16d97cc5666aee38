//! Cross-region packet relay: FEC block coding, relay framing and mesh
//! latency bookkeeping, with their contracts proved by Verus.
pub mod clock;
pub mod relay;
pub mod mesh;
pub mod edge;
