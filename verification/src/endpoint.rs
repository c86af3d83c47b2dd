//! Transport addresses as plain values.
use vstd::prelude::*;

verus! {

/// An IP transport address.
#[allow(inconsistent_fields)]
#[derive(Debug, Clone, Copy, PartialEq, Eq)]
pub enum Endpoint {
    /// An IPv4 address, its octets in network order, and a port.
    V4 { ip: [u8; 4], port: u16 },
    /// An IPv6 address, its octets in network order, a port, and the flow
    /// label and scope a socket needs to reach it.
    V6 { ip: [u8; 16], port: u16, flowinfo: u32, scope_id: u32 },
}

impl Endpoint {
    /// The octets of the IP address.
    pub open spec fn octets(self) -> Seq<u8> {
        match self {
            Endpoint::V4 { ip, .. } => ip@,
            Endpoint::V6 { ip, .. } => ip@,
        }
    }

    /// The port.
    pub open spec fn spec_port(self) -> u16 {
        match self {
            Endpoint::V4 { port, .. } => port,
            Endpoint::V6 { port, .. } => port,
        }
    }

    /// The port.
    pub fn port(&self) -> (r: u16)
        ensures
            r == self.spec_port(),
    {
        match self {
            Endpoint::V4 { port, .. } => *port,
            Endpoint::V6 { port, .. } => *port,
        }
    }
}

} // verus!
