//! The plain data the NAT works over: IPv4 endpoints, translation keys
//! (the externally visible side of a flow slot) and original flows (the
//! internal side).

use vstd::prelude::*;

verus! {

/// An IPv4 socket: the address as its 32-bit big-endian numeric value,
/// plus a 16-bit port.
#[derive(Clone, Copy, PartialEq, Eq, Hash, Structural, Debug)]
pub struct Endpoint {
    pub ip: u32,
    pub port: u16,
}

/// A translation key: a port on the NAT's external IP, paired with the
/// remote endpoint it talks to. Two remotes never share a key even when
/// they are assigned the same port number.
#[derive(Clone, Copy, PartialEq, Eq, Hash, Structural, Debug)]
pub struct TransKey {
    pub port: u16,
    pub remote: Endpoint,
}

/// An original flow: the true internal socket and the remote endpoint it
/// is talking to.
#[derive(Clone, Copy, PartialEq, Eq, Hash, Structural, Debug)]
pub struct Flow {
    pub internal: Endpoint,
    pub remote: Endpoint,
}

} // verus!
