//! IP addresses as plain integers.

use vstd::prelude::*;

verus! {

/// The address `127.0.0.1` as a 32-bit number.
pub const LOOPBACK_V4: u32 = 0x7f00_0001;

/// The address `0.0.0.0` as a 32-bit number.
pub const UNSPECIFIED_V4: u32 = 0;

/// An IP address, the identity of a client.
///
/// A version 4 address holds its four octets as one big-endian `u32`, a
/// version 6 address its eight groups as one big-endian `u128`. Two addresses
/// are the same identity exactly if they are equal as values: `1.2.3.4` and
/// `::ffff:1.2.3.4` are different identities.
#[derive(Clone, Copy, Debug, PartialEq, Eq, Hash, Structural)]
pub enum IpAddress {
    V4(u32),
    V6(u128),
}

/// An address and a port: one end of a connection.
#[derive(Clone, Copy, Debug, PartialEq, Eq, Hash, Structural)]
pub struct SocketAddress {
    pub ip: IpAddress,
    pub port: u16,
}

/// The number that the octets `a.b.c.d` stand for.
pub open spec fn v4_bits(a: int, b: int, c: int, d: int) -> int {
    ((a * 256 + b) * 256 + c) * 256 + d
}

impl IpAddress {
    /// The version 4 address `a.b.c.d`.
    pub open spec fn spec_v4(a: u8, b: u8, c: u8, d: u8) -> IpAddress {
        IpAddress::V4(v4_bits(a as int, b as int, c as int, d as int) as u32)
    }

    /// Whether this is the local loopback address `127.0.0.1`.
    pub open spec fn spec_is_loopback(self) -> bool {
        self == IpAddress::V4(LOOPBACK_V4)
    }

    /// The version 4 address `a.b.c.d`.
    pub fn v4(a: u8, b: u8, c: u8, d: u8) -> (ip: IpAddress)
        ensures
            ip == Self::spec_v4(a, b, c, d),
    {
        let hi: u32 = (a as u32) * 256 + (b as u32);
        let mid: u32 = hi * 256 + (c as u32);
        IpAddress::V4(mid * 256 + (d as u32))
    }

    /// Whether this is the local loopback address `127.0.0.1`.
    #[verifier::when_used_as_spec(spec_is_loopback)]
    pub fn is_loopback(self) -> (b: bool)
        ensures
            b == self.spec_is_loopback(),
    {
        match self {
            IpAddress::V4(bits) => bits == LOOPBACK_V4,
            IpAddress::V6(_) => false,
        }
    }
}

} // verus!
