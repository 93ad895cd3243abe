//! Blacklist evaluation core: enumerates IPv4 wildcard patterns, splits CIDR
//! ranges, generalizes domains to wildcard ancestors, and probes candidate
//! strings against a sorted store of content hashes.

use vstd::prelude::*;

pub mod cidr;
pub mod cursor;
pub mod domains;
pub mod driver;
pub mod store;
pub mod strings;

verus! {

/// Number of concrete addresses covered by a block of the given bit length,
/// as an integer: 2^(32 - bits).
pub open spec fn block_size(bits: int) -> int
    recommends
        0 <= bits <= 32,
    decreases 32 - bits,
{
    if bits >= 32 {
        1
    } else {
        2 * block_size(bits + 1)
    }
}

} // verus!
