//! Session-oriented datagram backend: a wire codec with a hard per-packet
//! size ceiling, a transport layer that tracks endpoints and queued
//! retransmissions, and a session authority that authenticates clients by
//! cookie and arbitrates chat and game-slot operations.

pub mod codec;
pub mod net;
pub mod server;
pub mod transport;
pub mod uilayout;

use vstd::prelude::*;

verus! {

/// Hard ceiling on the encoded size of one packet: a single UDP datagram.
pub const UDP_MTU_SIZE: usize = 1472;

} // verus!
