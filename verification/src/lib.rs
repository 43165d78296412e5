//! The hot path of a low-latency trading system: matching, strategies, latency
//! measurement and the messages between the processes, with their contracts proved.
//!
//! - [`hot_path`] holds the messages and the names of their services, [`service_names`]
//!   the names of the wider system, [`pod_types`] its messages and the packing of
//!   algorithm parameters.
//! - [`priority`] is price-time priority as mathematics, [`ladder`] one side of a book,
//!   [`order_book`] the limit order book and [`matching`] what ties them together.
//!   [`book_laws`] states what holds of every book.
//! - [`exchange`] is the venue around a book: its synthetic participants, its reports and
//!   its market data.
//! - [`strategy`] is the composite strategy. [`bytecode`] is the machine that runs a drawn
//!   one, [`compiler`] turns the drawing into a program, and [`json`] reads it.
//!   [`vm_laws`], [`compiler_laws`] and [`graph_laws`] state what holds of every program,
//!   and [`json_laws`] what holds of every text.
//! - [`pipeline`] is the risk check before an order and the booking of its fills,
//!   [`hot_path_service`] an order service without a book, and [`console`] the control
//!   plane.
//! - [`latency_window`], [`latency`], [`rdtsc`] and [`tsc_calibration`] measure time, with
//!   the order statistics of [`percentile`]; [`transport_bench`] measures the transport
//!   alone.
//! - [`num`] compares and truncates floating-point numbers by their bits; [`ring`],
//!   [`entries`] and [`text`] are the containers and the texts of the rest.
//!
//! The library does no input or output, reads no clock and computes with no
//! floating-point number. Where a result needs one, it says what is to be computed and
//! takes the value back.

pub mod book_laws;
pub mod bytecode;
pub mod compiler;
pub mod compiler_laws;
pub mod console;
pub mod entries;
pub mod exchange;
pub mod graph_laws;
pub mod hot_path;
pub mod hot_path_service;
pub mod json;
pub mod json_laws;
pub mod ladder;
pub mod latency;
pub mod latency_window;
pub mod matching;
pub mod num;
pub mod order_book;
pub mod percentile;
pub mod pipeline;
pub mod pod_types;
pub mod priority;
pub mod rdtsc;
pub mod ring;
pub mod service_names;
pub mod strategy;
pub mod text;
pub mod transport_bench;
pub mod tsc_calibration;
pub mod vm_laws;

pub use hot_path::{
    ExecutionReport, MarketTick, OrderBookSnapshot, OrderCommand, EXECUTION_SERVICE,
    MARKET_SERVICE, ORDER_SERVICE,
};
pub use hot_path_service::HotPathOrderService;
