//! The messages of the hot path.
//!
//! Each message is plain integers, 64 bytes when laid out in declaration order. Prices
//! and quantities are fixed-point integers (value times 1e8), so that two processes
//! always agree on them.

use vstd::prelude::*;

pub mod exchanges;
pub mod symbols;

verus! {

/// Order command.
#[derive(Clone, Copy, PartialEq, Eq, Structural, Debug)]
pub struct OrderCommand {
    /// Time stamp at creation.
    pub timestamp_ns: u64,
    pub order_id: u64,
    /// Price in fixed point.
    pub price_ticks: i64,
    /// Quantity in fixed point.
    pub quantity: u64,
    /// Time stamp of the tick that led to the order.
    pub origin_ts: u64,
    pub symbol_id: u32,
    pub user_id: u16,
    /// 0 is a buy, 1 a sell.
    pub side: u8,
    /// 0 is a market order, 1 a limit order.
    pub order_type: u8,
    /// 0 is new, 1 cancel, 2 modify.
    pub action: u8,
    pub flags: u8,
    pub exchange_id: u8,
    pub priority: u8,
}

/// Market-data tick.
#[derive(Clone, Copy, PartialEq, Eq, Structural, Debug)]
pub struct MarketTick {
    pub timestamp_ns: u64,
    pub symbol_id: u32,
    pub exchange_id: u8,
    /// 0 is a trade, 1 a bid, 2 an ask.
    pub tick_type: u8,
    pub price: i64,
    pub quantity: u64,
    pub bid: i64,
    pub ask: i64,
    pub volume_24h: u64,
    pub sequence: u64,
}

/// Execution report.
#[derive(Clone, Copy, PartialEq, Eq, Structural, Debug)]
pub struct ExecutionReport {
    pub timestamp_ns: u64,
    pub order_id: u64,
    pub exchange_order_id: u64,
    pub executed_price: i64,
    pub executed_quantity: u64,
    pub remaining_quantity: u64,
    pub commission: i64,
    /// 0 is new, 1 partial, 2 filled, 3 cancelled.
    pub status: u8,
    pub reject_reason: u8,
}

/// Order-book snapshot.
#[derive(Clone, Copy, PartialEq, Eq, Structural, Debug)]
pub struct OrderBookSnapshot {
    pub timestamp_ns: u64,
    pub symbol_id: u32,
    pub exchange_id: u8,
    /// Number of bid levels, 255 at most.
    pub depth: u8,
    pub best_bid: i64,
    pub best_ask: i64,
    pub bid_size: u64,
    pub ask_size: u64,
    pub mid_price: i64,
    pub spread: i64,
}

pub const ORDER_SERVICE: &'static str = "Trading/Orders/Commands";

pub const MARKET_SERVICE: &'static str = "Trading/Market/Ticks";

pub const EXECUTION_SERVICE: &'static str = "Trading/Orders/Executions";

/// Depth snapshots of the book.
pub const BOOK_SERVICE: &'static str = "Trading/Market/Book";

/// Signals a new order to an exchange that blocks.
pub const ORDER_EVENT: &'static str = "Trading/Orders/Event";

/// Signals a new tick to a strategy that blocks.
pub const MARKET_EVENT: &'static str = "Trading/Market/Event";

} // verus!
