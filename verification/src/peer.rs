//! A peer's network address as plain numbers.

use vstd::prelude::*;

verus! {

/// A peer's network address as plain numbers: the address family, the address
/// itself (an IPv4 address in the low 32 bits), the port, and the two extra
/// fields that an IPv6 socket address carries (zero for IPv4).
#[derive(Debug, Clone, Copy, PartialEq, Eq, Structural, Hash)]
pub struct PeerAddr {
    pub v6: bool,
    pub ip: u128,
    pub port: u16,
    pub flowinfo: u32,
    pub scope_id: u32,
}

} // verus!
