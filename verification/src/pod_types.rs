//! Plain market-data and order messages for the wider bus.
//!
//! Market-data messages are one cache line (64 bytes) when laid out in declaration order,
//! order messages two (128 bytes). Prices and quantities are fixed-point integers (value
//! times 1e8), never real numbers, so results are the same across processes and machines.

use crate::num::Num;
use vstd::bytes::{
    lemma_auto_spec_u32_to_from_le_bytes, lemma_auto_spec_u64_to_from_le_bytes,
    spec_u32_from_le_bytes, spec_u32_to_le_bytes, spec_u64_from_le_bytes, spec_u64_to_le_bytes,
    u32_from_le_bytes, u32_to_le_bytes, u64_from_le_bytes, u64_to_le_bytes,
};
use vstd::prelude::*;

verus! {

/// Market tick (trade).
#[derive(Clone, Copy, Debug)]
pub struct MarketTickPOD {
    pub timestamp_ns: u64,
    pub symbol_id: u32,
    pub exchange_id: u8,
    /// 0 is a buy, 1 a sell.
    pub side: u8,
    pub padding1: [u8; 2],
    pub price: i64,
    pub quantity: u64,
    pub trade_id: u64,
    pub sequence_num: u64,
    pub flags: u32,
    pub padding2: [u8; 12],
}

/// Order-book update.
#[derive(Clone, Copy, Debug)]
pub struct OrderBookUpdatePOD {
    pub timestamp_ns: u64,
    pub symbol_id: u32,
    pub exchange_id: u8,
    /// 0 is a bid, 1 an ask.
    pub side: u8,
    /// 0 adds, 1 updates, 2 deletes.
    pub update_type: u8,
    pub padding1: u8,
    pub price: i64,
    pub quantity: u64,
    pub sequence_num: u64,
    pub padding2: [u8; 24],
}

/// Ticker (24h statistics).
#[derive(Clone, Copy, Debug)]
pub struct TickerPOD {
    pub timestamp_ns: u64,
    pub symbol_id: u32,
    pub exchange_id: u8,
    pub padding1: [u8; 3],
    pub last_price: i64,
    pub bid_price: i64,
    pub ask_price: i64,
    pub volume_24h: u64,
    pub high_24h: i64,
    pub low_24h: i64,
}

/// OHLCV candle.
#[derive(Clone, Copy, Debug)]
pub struct OhlcvPOD {
    /// Candle open time.
    pub timestamp_ns: u64,
    pub open: i64,
    pub high: i64,
    pub low: i64,
    pub close: i64,
    pub volume: u64,
    pub symbol_id: u32,
    pub exchange_id: u8,
    /// 0 is one minute, 1 five, 2 fifteen, 3 one hour, 4 four, 5 one day.
    pub timeframe: u8,
    pub padding1: u16,
    pub padding2: u32,
}

/// Order-creation request.
#[derive(Clone, Copy, Debug)]
pub struct CreateOrderRequestPOD {
    pub timestamp_ns: u64,
    pub request_id: u64,
    /// Fixed point; 0 for market orders.
    pub price: i64,
    pub quantity: u64,
    pub stop_price: i64,
    pub client_order_id: u64,
    /// 0 if manual.
    pub strategy_id: u64,
    pub user_id: i32,
    pub symbol_id: u32,
    pub strategy_version: u32,
    pub exchange_id: u8,
    /// 0 is a buy, 1 a sell.
    pub side: u8,
    /// See [`OrderType`].
    pub order_type: u16,
    /// 0 is GTC, 1 IOC, 2 FOK, 3 GTT.
    pub time_in_force: u8,
    /// See [`AlgorithmType`].
    pub algorithm_type: u16,
    pub padding1: u8,
    /// Parameters of the algorithm.
    pub algorithm_params: [u8; 48],
}

/// Order types: 0 to 99 are basic, 100 to 199 execution algorithms, from 200 on compiled
/// strategies.
#[derive(Clone, Copy, PartialEq, Eq, Structural, Debug)]
pub enum OrderType {
    Market,
    Limit,
    StopLoss,
    StopLimit,
    TakeProfit,
    TakeProfitLimit,
    TrailingStop,
    TWAP,
    VWAP,
    Iceberg,
    POV,
    Implementation,
    TargetClose,
    CompiledStrategy,
}

impl OrderType {
    pub open spec fn number(self) -> u16 {
        match self {
            OrderType::Market => 0,
            OrderType::Limit => 1,
            OrderType::StopLoss => 2,
            OrderType::StopLimit => 3,
            OrderType::TakeProfit => 4,
            OrderType::TakeProfitLimit => 5,
            OrderType::TrailingStop => 6,
            OrderType::TWAP => 100,
            OrderType::VWAP => 101,
            OrderType::Iceberg => 102,
            OrderType::POV => 103,
            OrderType::Implementation => 104,
            OrderType::TargetClose => 105,
            OrderType::CompiledStrategy => 200,
        }
    }

    /// The type as it goes into a request.
    pub fn code(self) -> (r: u16)
        ensures
            r == self.number(),
    {
        match self {
            OrderType::Market => 0,
            OrderType::Limit => 1,
            OrderType::StopLoss => 2,
            OrderType::StopLimit => 3,
            OrderType::TakeProfit => 4,
            OrderType::TakeProfitLimit => 5,
            OrderType::TrailingStop => 6,
            OrderType::TWAP => 100,
            OrderType::VWAP => 101,
            OrderType::Iceberg => 102,
            OrderType::POV => 103,
            OrderType::Implementation => 104,
            OrderType::TargetClose => 105,
            OrderType::CompiledStrategy => 200,
        }
    }
}

/// Algorithm types, for the `algorithm_type` field.
#[derive(Clone, Copy, PartialEq, Eq, Structural, Debug)]
pub enum AlgorithmType {
    Direct,
    TWAP,
    VWAP,
    Iceberg,
    POV,
    Compiled,
}

impl AlgorithmType {
    pub open spec fn number(self) -> u16 {
        match self {
            AlgorithmType::Direct => 0,
            AlgorithmType::TWAP => 1,
            AlgorithmType::VWAP => 2,
            AlgorithmType::Iceberg => 3,
            AlgorithmType::POV => 4,
            AlgorithmType::Compiled => 100,
        }
    }

    /// The type as it goes into a request.
    pub fn code(self) -> (r: u16)
        ensures
            r == self.number(),
    {
        match self {
            AlgorithmType::Direct => 0,
            AlgorithmType::TWAP => 1,
            AlgorithmType::VWAP => 2,
            AlgorithmType::Iceberg => 3,
            AlgorithmType::POV => 4,
            AlgorithmType::Compiled => 100,
        }
    }
}

/// Order response.
#[derive(Clone, Copy, Debug)]
pub struct OrderResponsePOD {
    pub timestamp_ns: u64,
    /// Matches the request.
    pub request_id: u64,
    pub filled_quantity: u64,
    pub avg_fill_price: i64,
    /// Hot-path processing latency.
    pub latency_ns: u64,
    /// Exchange order id, null-terminated.
    pub order_id: [u8; 64],
    /// 0 is rejected, 1 accepted, 2 pending.
    pub status: u8,
    /// 0 on success.
    pub error_code: u16,
    pub padding1: [u8; 13],
}

/// Order status update (lifecycle events).
#[derive(Clone, Copy, Debug)]
pub struct OrderStatusUpdatePOD {
    pub timestamp_ns: u64,
    pub filled_quantity: u64,
    pub remaining_quantity: u64,
    pub avg_fill_price: i64,
    pub last_fill_price: i64,
    pub last_fill_quantity: u64,
    pub order_id: [u8; 64],
    pub status: u8,
    pub padding1: [u8; 15],
}

/// `params` with `bytes` from position `at` on.
pub open spec fn overwritten(params: Seq<u8>, at: int, bytes: Seq<u8>) -> Seq<u8> {
    params.take(at) + bytes + params.skip(at + bytes.len())
}

/// The `n` bytes from position `at` on.
fn bytes_at(params: &[u8; 48], at: usize, n: usize) -> (r: Vec<u8>)
    requires
        at + n <= 48,
    ensures
        r@ == params@.subrange(at as int, at + n),
{
    let mut out: Vec<u8> = Vec::new();
    let mut k: usize = 0;
    while k < n
        invariant
            k <= n,
            at + n <= 48,
            out@ == params@.subrange(at as int, at + k),
        decreases n - k,
    {
        out.push(params[at + k]);
        k = k + 1;
        assert(out@ =~= params@.subrange(at as int, at + k));
    }
    out
}

/// Writes `bytes` from position `at` on.
fn put_bytes(params: &mut [u8; 48], at: usize, bytes: &Vec<u8>)
    requires
        at + bytes@.len() <= 48,
    ensures
        final(params)@ == overwritten(old(params)@, at as int, bytes@),
{
    let mut k: usize = 0;
    let n: usize = bytes.len();
    assert(params@ =~= overwritten(params@, at as int, bytes@.take(0)));
    while k < n
        invariant
            k <= n,
            n == bytes@.len(),
            at + n <= 48,
            params@ == overwritten(old(params)@, at as int, bytes@.take(k as int)),
        decreases n - k,
    {
        let ghost before = params@;
        params[at + k] = bytes[k];
        k = k + 1;
        assert(params@ =~= overwritten(old(params)@, at as int, bytes@.take(k as int)));
    }
    assert(bytes@.take(k as int) =~= bytes@);
}

impl CreateOrderRequestPOD {
    /// The request with its algorithm set and parameters written.
    pub open spec fn with_params(self, kind: AlgorithmType, params: Seq<u8>) -> bool {
        self.algorithm_type == kind.number() && self.algorithm_params@ == params
    }

    /// Everything but the algorithm and its parameters is the same.
    pub open spec fn same_order(self, other: CreateOrderRequestPOD) -> bool {
        self == (CreateOrderRequestPOD {
            algorithm_type: self.algorithm_type,
            algorithm_params: self.algorithm_params,
            ..other
        })
    }

    /// TWAP parameters: the duration in seconds in bytes 0 to 7, the number of slices in
    /// bytes 8 to 11.
    pub open spec fn twap(self) -> Option<(u64, u32)> {
        if self.algorithm_type == AlgorithmType::TWAP.number() {
            Some(
                (
                    spec_u64_from_le_bytes(self.algorithm_params@.subrange(0, 8)),
                    spec_u32_from_le_bytes(self.algorithm_params@.subrange(8, 12)),
                ),
            )
        } else {
            None
        }
    }

    /// VWAP parameters: the participation rate in bytes 0 to 7, the duration in seconds in
    /// bytes 8 to 15.
    pub open spec fn vwap(self) -> Option<(Num, u64)> {
        if self.algorithm_type == AlgorithmType::VWAP.number() {
            Some(
                (
                    Num { bits: spec_u64_from_le_bytes(self.algorithm_params@.subrange(0, 8)) },
                    spec_u64_from_le_bytes(self.algorithm_params@.subrange(8, 16)),
                ),
            )
        } else {
            None
        }
    }

    /// Iceberg parameters: the displayed quantity in bytes 0 to 7, the total quantity in
    /// bytes 8 to 15.
    pub open spec fn iceberg(self) -> Option<(u64, u64)> {
        if self.algorithm_type == AlgorithmType::Iceberg.number() {
            Some(
                (
                    spec_u64_from_le_bytes(self.algorithm_params@.subrange(0, 8)),
                    spec_u64_from_le_bytes(self.algorithm_params@.subrange(8, 16)),
                ),
            )
        } else {
            None
        }
    }

    /// The TWAP parameters: duration in seconds and number of slices.
    pub fn decode_twap_params(&self) -> (r: Option<(u64, u32)>)
        ensures
            r == self.twap(),
    {
        if self.algorithm_type != AlgorithmType::TWAP.code() {
            return None;
        }
        let first = bytes_at(&self.algorithm_params, 0, 8);
        let second = bytes_at(&self.algorithm_params, 8, 4);
        let duration: u64 = u64_from_le_bytes(first.as_slice());
        let num_slices: u32 = u32_from_le_bytes(second.as_slice());
        Some((duration, num_slices))
    }

    /// Makes this a TWAP order. Reading the parameters back gives what was written; the
    /// bytes behind them stay.
    pub fn encode_twap_params(&mut self, duration_seconds: u64, num_slices: u32)
        ensures
            final(self).with_params(
                AlgorithmType::TWAP,
                overwritten(
                    overwritten(
                        old(self).algorithm_params@,
                        0,
                        spec_u64_to_le_bytes(duration_seconds),
                    ),
                    8,
                    spec_u32_to_le_bytes(num_slices),
                ),
            ),
            final(self).same_order(*old(self)),
            final(self).twap() == Some((duration_seconds, num_slices)),
    {
        self.algorithm_type = AlgorithmType::TWAP.code();
        let first = u64_to_le_bytes(duration_seconds);
        let second = u32_to_le_bytes(num_slices);
        put_bytes(&mut self.algorithm_params, 0, &first);
        put_bytes(&mut self.algorithm_params, 8, &second);
        proof {
            lemma_auto_spec_u64_to_from_le_bytes();
            lemma_auto_spec_u32_to_from_le_bytes();
            assert(self.algorithm_params@.subrange(0, 8) =~= first@);
            assert(self.algorithm_params@.subrange(8, 12) =~= second@);
        }
    }

    /// The VWAP parameters: participation rate and duration in seconds.
    pub fn decode_vwap_params(&self) -> (r: Option<(Num, u64)>)
        ensures
            r == self.vwap(),
    {
        if self.algorithm_type != AlgorithmType::VWAP.code() {
            return None;
        }
        let first = bytes_at(&self.algorithm_params, 0, 8);
        let second = bytes_at(&self.algorithm_params, 8, 8);
        let bits: u64 = u64_from_le_bytes(first.as_slice());
        let duration: u64 = u64_from_le_bytes(second.as_slice());
        Some((Num { bits }, duration))
    }

    /// Makes this a VWAP order. Reading the parameters back gives what was written; the
    /// bytes behind them stay.
    pub fn encode_vwap_params(&mut self, participation_rate: Num, duration_seconds: u64)
        ensures
            final(self).with_params(
                AlgorithmType::VWAP,
                overwritten(
                    overwritten(
                        old(self).algorithm_params@,
                        0,
                        spec_u64_to_le_bytes(participation_rate.bits),
                    ),
                    8,
                    spec_u64_to_le_bytes(duration_seconds),
                ),
            ),
            final(self).same_order(*old(self)),
            final(self).vwap() == Some((participation_rate, duration_seconds)),
    {
        self.algorithm_type = AlgorithmType::VWAP.code();
        let first = u64_to_le_bytes(participation_rate.bits);
        let second = u64_to_le_bytes(duration_seconds);
        put_bytes(&mut self.algorithm_params, 0, &first);
        put_bytes(&mut self.algorithm_params, 8, &second);
        proof {
            lemma_auto_spec_u64_to_from_le_bytes();
            assert(self.algorithm_params@.subrange(0, 8) =~= first@);
            assert(self.algorithm_params@.subrange(8, 16) =~= second@);
        }
    }

    /// The iceberg parameters: displayed and total quantity.
    pub fn decode_iceberg_params(&self) -> (r: Option<(u64, u64)>)
        ensures
            r == self.iceberg(),
    {
        if self.algorithm_type != AlgorithmType::Iceberg.code() {
            return None;
        }
        let first = bytes_at(&self.algorithm_params, 0, 8);
        let second = bytes_at(&self.algorithm_params, 8, 8);
        Some((u64_from_le_bytes(first.as_slice()), u64_from_le_bytes(second.as_slice())))
    }
}

/// A request holds the parameters of at most one algorithm.
pub proof fn law_one_algorithm_at_a_time(r: CreateOrderRequestPOD)
    ensures
        r.twap() is Some ==> r.vwap() is None && r.iceberg() is None,
        r.vwap() is Some ==> r.twap() is None && r.iceberg() is None,
        r.iceberg() is Some ==> r.twap() is None && r.vwap() is None,
{
}

/// Different types have different numbers.
pub proof fn law_type_numbers_are_distinct(a: OrderType, b: OrderType, c: AlgorithmType, d: AlgorithmType)
    ensures
        a.number() == b.number() ==> a == b,
        c.number() == d.number() ==> c == d,
{
}

/// What stands where in the parameters of an algorithm, little end first: the first number
/// in bytes 0 to 7 and the second from byte 8 on. Only a request of that kind has them.
pub proof fn law_parameters_stand_in_their_bytes(r: CreateOrderRequestPOD, a: u64, b: u64, n: u32)
    requires
        r.algorithm_params@.subrange(0, 8) == spec_u64_to_le_bytes(a),
    ensures
        r.algorithm_type == 1 && r.algorithm_params@.subrange(8, 12) == spec_u32_to_le_bytes(n)
            ==> r.twap() == Some((a, n)),
        r.algorithm_type == 2 && r.algorithm_params@.subrange(8, 16) == spec_u64_to_le_bytes(b)
            ==> r.vwap() == Some((Num { bits: a }, b)),
        r.algorithm_type == 3 && r.algorithm_params@.subrange(8, 16) == spec_u64_to_le_bytes(b)
            ==> r.iceberg() == Some((a, b)),
        r.twap() is Some <==> r.algorithm_type == 1,
        r.vwap() is Some <==> r.algorithm_type == 2,
        r.iceberg() is Some <==> r.algorithm_type == 3,
{
    lemma_auto_spec_u64_to_from_le_bytes();
    lemma_auto_spec_u32_to_from_le_bytes();
    assert(spec_u32_to_le_bytes(n).len() == 4);
}

/// Writing bytes over others changes those and no others.
pub proof fn law_overwriting_is_local(params: Seq<u8>, at: int, bytes: Seq<u8>, i: int)
    requires
        0 <= at,
        at + bytes.len() <= params.len(),
        0 <= i < params.len(),
    ensures
        overwritten(params, at, bytes).len() == params.len(),
        overwritten(params, at, bytes)[i] == if at <= i < at + bytes.len() {
            bytes[i - at]
        } else {
            params[i]
        },
{
}

/// The numbers of the order types: basic ones count up from 0, execution algorithms from
/// 100, and compiled strategies have 200.
pub proof fn law_order_types_have_their_numbers(t: OrderType, a: AlgorithmType)
    ensures
        t is Market <==> t.number() == 0,
        t is Limit <==> t.number() == 1,
        t is StopLoss <==> t.number() == 2,
        t is StopLimit <==> t.number() == 3,
        t is TakeProfit <==> t.number() == 4,
        t is TakeProfitLimit <==> t.number() == 5,
        t is TrailingStop <==> t.number() == 6,
        t is TWAP <==> t.number() == 100,
        t is VWAP <==> t.number() == 101,
        t is Iceberg <==> t.number() == 102,
        t is POV <==> t.number() == 103,
        t is Implementation <==> t.number() == 104,
        t is TargetClose <==> t.number() == 105,
        t is CompiledStrategy <==> t.number() == 200,
        a is Direct <==> a.number() == 0,
        a is TWAP <==> a.number() == 1,
        a is VWAP <==> a.number() == 2,
        a is Iceberg <==> a.number() == 3,
        a is POV <==> a.number() == 4,
        a is Compiled <==> a.number() == 100,
{
}

/// A request made into an order of an algorithm holds that algorithm's number and the
/// parameters byte for byte, and everything else as it was.
pub proof fn law_only_the_algorithm_changes(
    before: CreateOrderRequestPOD,
    after: CreateOrderRequestPOD,
    kind: AlgorithmType,
    params: Seq<u8>,
    i: int,
)
    requires
        after.with_params(kind, params),
        after.same_order(before),
        0 <= i < params.len(),
    ensures
        after.algorithm_type == kind.number(),
        after.algorithm_params@.len() == params.len(),
        after.algorithm_params@[i] == params[i],
        before == (CreateOrderRequestPOD {
            algorithm_type: before.algorithm_type,
            algorithm_params: before.algorithm_params,
            ..after
        }),
{
}

} // verus!
