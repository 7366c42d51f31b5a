//! A minimal peer-to-peer node library: a wire protocol with length-delimited
//! framing, a membership set maintained by discovery handshakes and
//! heartbeat failure detection, and a replicated key-value store whose
//! writes fan out to the current membership set.

pub mod client;
pub mod membership;
pub mod node;
pub mod store;
pub mod wire;

use vstd::prelude::*;

verus! {

/// Maximum number of payload bytes one frame may carry.
pub const MAX_FRAME_LEN: usize = 65536;

} // verus!
