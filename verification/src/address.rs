//! Where a datagram comes from or goes to.

use vstd::prelude::*;

verus! {

/// An IP address and a port.
#[derive(Clone, Copy, Debug, PartialEq, Eq, Structural)]
pub enum SocketAddress {
    /// The address is the four octets as one big-endian number.
    V4 { ip: u32, port: u16 },
    /// The address is the sixteen octets as one big-endian number.
    V6 { ip6: u128, port: u16, flowinfo: u32, scope_id: u32 },
}

} // verus!
