//! Service names, in one place so that every process on the bus agrees on them. Format:
//! "Domain/Type".

use vstd::prelude::*;

verus! {

pub const MARKET_DATA_TRADES: &'static str = "MarketData/Trades";

pub const MARKET_DATA_ORDERBOOK: &'static str = "MarketData/OrderBook";

pub const MARKET_DATA_TICKER: &'static str = "MarketData/Ticker";

pub const MARKET_DATA_OHLCV: &'static str = "MarketData/OHLCV";

pub const OMS_CREATE_ORDER: &'static str = "OMS/CreateOrder";

pub const OMS_CANCEL_ORDER: &'static str = "OMS/CancelOrder";

pub const OMS_MODIFY_ORDER: &'static str = "OMS/ModifyOrder";

pub const OMS_GET_ORDER: &'static str = "OMS/GetOrder";

pub const OMS_ORDER_UPDATES: &'static str = "OMS/OrderUpdates";

pub const HOT_PATH_ORDER_EXECUTION: &'static str = "HotPath/OrderExecution";

} // verus!
