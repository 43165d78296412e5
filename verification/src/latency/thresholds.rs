//! Expected latencies of the bus operations, in nanoseconds.

use vstd::prelude::*;

verus! {

pub const PUBLISH_EXPECTED: u128 = 500;

pub const PUBLISH_WARNING: u128 = 1_000;

pub const RECEIVE_EXPECTED: u128 = 300;

pub const RECEIVE_WARNING: u128 = 1_000;

pub const REQUEST_RESPONSE_EXPECTED: u128 = 1_000;

pub const EVENT_EXPECTED: u128 = 200;

/// What an operation of the bus should take: receiving 300 ns, publishing 500 ns, an event
/// 200 ns and a request with its response a microsecond; a microsecond calls for a warning.
pub proof fn law_the_bus_is_fast()
    ensures
        PUBLISH_EXPECTED == 500 && PUBLISH_WARNING == 1_000,
        RECEIVE_EXPECTED == 300 && RECEIVE_WARNING == 1_000,
        REQUEST_RESPONSE_EXPECTED == 1_000 && EVENT_EXPECTED == 200,
{
}

} // verus!
