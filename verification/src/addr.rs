//! The remote endpoint of a connection, held as plain values.

use vstd::prelude::*;

verus! {

/// An IP endpoint: the address bytes, which of the two families they belong
/// to, and the port. An IPv4 address uses the first four bytes.
#[derive(Clone, Copy, Debug)]
pub struct Address {
    pub octets: [u8; 16],
    pub is_ipv6: bool,
    pub port: u16,
}

} // verus!
