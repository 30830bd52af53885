pub mod cidr;
pub mod mikrotik;
pub mod ripe;
pub mod text;
pub mod user_config;

use vstd::prelude::*;

verus! {

/// The closed taxonomy of run failures: a malformed address in a range
/// entry, a connection that could not be opened, or a remote command
/// that reported failure.
#[derive(Clone, Copy, PartialEq, Eq, Structural, Debug)]
pub enum SyncError {
    ParseError,
    ConnectionError,
    RemoteCommandError,
}

/// An IPv4 CIDR block: a 32-bit network address and a prefix length.
#[derive(Clone, Copy, PartialEq, Eq, Structural, Debug)]
pub struct CidrBlock {
    pub addr: u32,
    pub prefix: u8,
}

impl CidrBlock {
    /// The number of addresses the block spans: `2^(32 - prefix)`.
    pub open spec fn block_size(self) -> int {
        vstd::arithmetic::power2::pow2((32 - self.prefix) as nat) as int
    }

    /// A well-formed block: prefix at most 32 and the address aligned
    /// to the block size (it is a network address, not a host address).
    pub open spec fn wf(self) -> bool {
        &&& self.prefix <= 32
        &&& self.addr as int % self.block_size() == 0
    }
}

} // verus!
