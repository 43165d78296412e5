//! Pre-mapped exchange ids.

use vstd::prelude::*;

verus! {

pub const BINANCE: u8 = 1;

pub const OKX: u8 = 2;

pub const DERIBIT: u8 = 3;

pub const COINBASE: u8 = 4;

/// The ids of the exchanges on the wire.
pub proof fn law_exchanges_have_their_ids()
    ensures
        BINANCE == 1 && OKX == 2 && DERIBIT == 3 && COINBASE == 4,
{
}

} // verus!
