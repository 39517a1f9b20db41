//! What the transport layer names: the network interfaces that a raw socket
//! can be bound to.

use vstd::prelude::*;

verus! {

/// A network interface of the machine.
#[derive(Clone, Copy, Debug, PartialEq, Eq)]
pub enum NetworkInterface {
    ETH0,
}

/// What a raw socket is made from: the interface that it is bound to.
#[derive(Clone, Copy, Debug)]
pub struct RawSocket {
    pub interface: NetworkInterface,
}

/// The name under which the system knows the interface.
pub open spec fn interface_name(interface: NetworkInterface) -> Seq<char> {
    match interface {
        NetworkInterface::ETH0 => "eth0"@,
    }
}

/// The name under which the system knows the interface.
pub fn network_interface_to_string(interface: NetworkInterface) -> (r: &'static str)
    ensures
        r@ == interface_name(interface),
{
    match interface {
        NetworkInterface::ETH0 => "eth0",
    }
}

} // verus!
