//! Pre-mapped symbol ids: integers instead of strings, so that the hot path never
//! allocates or hashes.

use vstd::prelude::*;

verus! {

pub const BTC_USDT: u32 = 1;

pub const ETH_USDT: u32 = 2;

pub const BTC_USD: u32 = 3;

pub const ETH_USD: u32 = 4;

/// The ids of the symbols on the wire.
pub proof fn law_symbols_have_their_ids()
    ensures
        BTC_USDT == 1 && ETH_USDT == 2 && BTC_USD == 3 && ETH_USD == 4,
{
}

} // verus!
