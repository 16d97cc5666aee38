//! The edge: flows accepted from local clients over TCP or QUIC.
//!
//! Each client connection (TCP) or stream (QUIC) is one relay flow with a
//! 32-bit id. TCP flows are numbered from 1 and QUIC flows from
//! `QUIC_FLOW_ID_BASE`, so a delivery coming back from the relay finds its
//! edge by its id alone.
use vstd::prelude::*;

verus! {

/// First flow id handed to a TCP connection.
pub const TCP_FIRST_FLOW_ID: u32 = 1;

/// First flow id handed to a QUIC stream; every lower id is a TCP flow.
pub const QUIC_FLOW_ID_BASE: u32 = 1_000_000;

/// The edge that owns a flow.
#[derive(Clone, Copy, Debug, PartialEq, Eq, Structural)]
pub enum EdgeKind {
    Tcp,
    Quic,
}

/// The edge that owns flow `flow_id`.
pub open spec fn spec_edge_of(flow_id: u32) -> EdgeKind {
    if flow_id < QUIC_FLOW_ID_BASE {
        EdgeKind::Tcp
    } else {
        EdgeKind::Quic
    }
}

/// The edge to which data for flow `flow_id` is delivered.
pub fn edge_of(flow_id: u32) -> (e: EdgeKind)
    ensures
        e == spec_edge_of(flow_id),
{
    if flow_id < QUIC_FLOW_ID_BASE {
        EdgeKind::Tcp
    } else {
        EdgeKind::Quic
    }
}

} // verus!
