//! Bridge core between application logic and a retained-mode native renderer
//! living across a foreign-function boundary: element descriptors, the wire
//! codec for descriptors and child lists, the tree topology registry, the
//! session lifecycle, and typed dispatch of inbound user-interaction events.

use vstd::prelude::*;

pub mod codec;
pub mod descriptor;
pub mod dispatch;
pub mod events;
pub mod session;

verus! {

/// Error taxonomy of the bridge.
#[derive(Clone, Copy, PartialEq, Eq, Structural, Debug)]
pub enum BridgeError {
    /// Content cannot be represented in the transport encoding; the
    /// submission is dropped whole, never sent partially.
    Encoding,
    /// A call was made out of protocol order, or referenced an id the bridge
    /// has not itself submitted.
    ProtocolViolation,
    /// An inbound payload handle was absent; the event is ignored, never
    /// dereferenced.
    BoundaryPayload,
}

} // verus!
