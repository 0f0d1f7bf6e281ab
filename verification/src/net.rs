//! Network addresses as plain values.
use vstd::prelude::*;

verus! {

/// An address of either family, as the number that its octets spell most significant
/// first: 1.2.3.4 is `V4(0x0102_0304)`.
#[derive(Debug, Clone, Copy, PartialEq, Eq, Structural, Hash)]
pub enum IpAddr {
    V4(u32),
    V6(u128),
}

/// An address and a port.
#[derive(Debug, Clone, Copy, PartialEq, Eq, Structural, Hash)]
pub struct SocketAddr {
    pub ip: IpAddr,
    pub port: u16,
}

} // verus!
