use rust_hotpath_ipc::hot_path::{
    exchanges, symbols, ExecutionReport, MarketTick, OrderCommand, BOOK_SERVICE,
    EXECUTION_SERVICE, MARKET_EVENT, MARKET_SERVICE, ORDER_EVENT, ORDER_SERVICE,
};
use rust_hotpath_ipc::hot_path_service::{HotPathOrderService, LoopMeter, ServiceFault, METER_BATCH};
use rust_hotpath_ipc::num::Num;
use rust_hotpath_ipc::pipeline::{position_delta, FillLedger, OrderDesk};
use rust_hotpath_ipc::service_names;
use rust_hotpath_ipc::strategy::Side;
use rust_hotpath_ipc::transport_bench::{
    bench_line, benchmark_order, feed_tick, BenchSubscriber, BenchWindow, REPORT_INTERVAL,
    WARMUP_RECEIVES,
};

fn num(x: f64) -> Num {
    Num { bits: x.to_bits() }
}

fn tick(price: i64, bid: i64, ask: i64) -> MarketTick {
    feed_tick(price, bid, ask, 77, 5)
}

#[test]
fn a_feed_tick_is_a_trade_of_one_unit() {
    let t = tick(100, 99, 101);
    assert_eq!((t.timestamp_ns, t.sequence, t.tick_type), (77, 5, 0));
    assert_eq!((t.price, t.bid, t.ask, t.quantity), (100, 99, 101, 100_000_000));
    assert_eq!((t.symbol_id, t.exchange_id), (symbols::BTC_USDT, exchanges::BINANCE));
}

#[test]
fn fractions_of_a_unit_count_as_one() {
    assert_eq!(position_delta(num(0.25f64.ceil())), 1);
    assert_eq!(position_delta(num(2.1f64.ceil())), 3);
    assert_eq!(position_delta(num(0.0)), 1);
    assert_eq!(position_delta(num(-4.0)), 1);
    assert_eq!(position_delta(num(f64::NAN)), 1);
    assert_eq!(position_delta(num(f64::INFINITY)), i64::MAX);
}

#[test]
fn marketable_orders_cross_at_the_last_price() {
    let mut desk = OrderDesk::new(3, 1, 500, false);
    let cmd = desk.trade(Side::Sell, &tick(100, 99, 101), 1234).unwrap();
    assert_eq!((cmd.order_id, cmd.side, cmd.order_type, cmd.action), (1, 1, 0, 0));
    assert_eq!((cmd.price_ticks, cmd.quantity), (100, 500));
    assert_eq!((cmd.timestamp_ns, cmd.origin_ts), (1234, 77));
    assert_eq!(desk.position, -1);
}

#[test]
fn passive_orders_rest_at_the_touch() {
    let mut desk = OrderDesk::new(9, 1, 500, true);
    let buy = desk.trade(Side::Buy, &tick(100, 99, 101), 1).unwrap();
    assert_eq!((buy.price_ticks, buy.order_type), (99, 1));
    let sell = desk.trade(Side::Sell, &tick(100, 99, 101), 1).unwrap();
    assert_eq!((sell.price_ticks, sell.order_id), (101, 2));
    // Without a touch, the last price.
    let sell = desk.trade(Side::Sell, &tick(100, 99, 0), 1).unwrap();
    assert_eq!(sell.price_ticks, 100);
}

#[test]
fn the_position_stays_within_its_limit() {
    let mut desk = OrderDesk::new(3, 2, 1, false);
    for _ in 0..5 {
        desk.trade(Side::Buy, &tick(1, 1, 1), 0);
    }
    assert_eq!((desk.position, desk.sent, desk.suppressed), (2, 1, 4));
    for _ in 0..5 {
        desk.trade(Side::Sell, &tick(1, 1, 1), 0);
    }
    assert_eq!((desk.position, desk.sent, desk.suppressed), (-2, 3, 7));
    // A negative limit lets nothing through.
    let mut shut = OrderDesk::new(-1, 1, 1, false);
    assert!(shut.trade(Side::Buy, &tick(1, 1, 1), 0).is_none());
    let mut shut = OrderDesk::new(i64::MIN, 1, 1, false);
    assert!(shut.trade(Side::Sell, &tick(1, 1, 1), 0).is_none());
    // The widest limit suppresses nothing.
    let mut open = OrderDesk::new(i64::MAX, 1, 1, false);
    assert!(open.trade(Side::Buy, &tick(1, 1, 1), 0).is_some());
}

#[test]
fn a_finite_run_stops_after_its_orders() {
    let mut desk = OrderDesk::new(9, 1, 1, false).stopping_after(2);
    assert!(!desk.is_finished());
    assert!(desk.trade(Side::Buy, &tick(1, 1, 1), 0).is_some());
    assert!(!desk.is_finished());
    assert!(desk.trade(Side::Buy, &tick(1, 1, 1), 0).is_some());
    assert!(desk.is_finished());
    let before = desk;
    assert!(desk.trade(Side::Sell, &tick(1, 1, 1), 0).is_none());
    assert_eq!(desk, before);
    assert_eq!((desk.position, desk.sent, desk.suppressed), (2, 2, 0));
    // A suppressed order is not sent.
    let mut desk = OrderDesk::new(0, 1, 1, false).stopping_after(1);
    assert!(desk.trade(Side::Buy, &tick(1, 1, 1), 0).is_none());
    assert!(!desk.is_finished());
    // A run of no orders is over at once; an endless one never.
    assert!(OrderDesk::new(9, 1, 1, false).stopping_after(0).is_finished());
    assert!(!OrderDesk::new(9, 1, 1, false).is_finished());
}

fn report(order_id: u64, status: u8, timestamp_ns: u64) -> ExecutionReport {
    ExecutionReport {
        timestamp_ns,
        order_id,
        exchange_order_id: order_id,
        executed_price: 100,
        executed_quantity: 2,
        remaining_quantity: 0,
        commission: 7,
        status,
        reject_reason: 0,
    }
}

fn order(order_id: u64, side: u8, origin_ts: u64) -> OrderCommand {
    OrderCommand { side, origin_ts, ..benchmark_order(order_id, 0) }
}

#[test]
fn fills_are_booked_once_their_order_is_known() {
    let mut ledger = FillLedger::new();
    assert!(ledger.on_report(&report(1, 2, 50)).is_none());
    ledger.note_order(&order(1, 0, 10));
    assert!(ledger.on_report(&report(1, 0, 50)).is_none());
    assert!(ledger.on_report(&report(1, 3, 50)).is_none());
    let part = ledger.on_report(&report(1, 1, 50)).unwrap();
    assert!(part.partial && part.buy && part.tick_to_fill.is_none());
    assert_eq!((part.price, part.quantity, part.commission), (100, 2, 7));
    let last = ledger.on_report(&report(1, 2, 60)).unwrap();
    assert!(!last.partial);
    assert_eq!(last.tick_to_fill, Some(50));
    assert_eq!(ledger.orders_filled(), 1);
    // The order is closed.
    assert!(ledger.on_report(&report(1, 2, 70)).is_none());
    assert_eq!((ledger.fills(), ledger.orders_filled()), (2, 1));
    assert!(ledger.is_finished(Some(1)) && ledger.is_finished(Some(0)));
    assert!(!ledger.is_finished(Some(2)) && !ledger.is_finished(None));
}

#[test]
fn fills_without_a_usable_clock_are_not_timed() {
    let mut ledger = FillLedger::new();
    ledger.note_order(&order(1, 1, 0));
    let f = ledger.on_report(&report(1, 2, 60)).unwrap();
    assert!(!f.buy && f.tick_to_fill.is_none());
    ledger.note_order(&order(2, 1, 60));
    assert!(ledger.on_report(&report(2, 2, 60)).unwrap().tick_to_fill.is_none());
}

#[test]
fn service_creation_succeeds() {
    assert!(HotPathOrderService::new(3).is_ok());
}

#[test]
fn a_service_starts_only_with_its_ports() {
    let mut s = HotPathOrderService::new(3).unwrap();
    assert_eq!(s.start(), Err(ServiceFault::NotInitialized));
    assert_eq!(
        ServiceFault::NotInitialized.message(),
        "service not initialized: call initialize() first"
    );
    assert!(!s.running);
    s.initialize();
    assert_eq!(s.start(), Ok(()));
    assert!(s.running && s.cpu_core == 3);
    s.stop();
    assert!(!s.running);
}

#[test]
fn an_order_is_filled_at_once_and_whole() {
    let s = HotPathOrderService::new(0).unwrap();
    let r = s.process_order_hot_path(&order(9, 0, 0), 888);
    assert_eq!((r.order_id, r.exchange_order_id, r.timestamp_ns), (9, 9, 888));
    assert_eq!((r.executed_price, r.executed_quantity), (5_000_009, 109));
    assert_eq!((r.remaining_quantity, r.commission, r.status, r.reject_reason), (0, 0, 2, 0));
}

#[test]
fn the_loop_averages_over_a_batch() {
    let mut m = LoopMeter::new(METER_BATCH);
    for i in 0..METER_BATCH - 1 {
        assert!(m.count(i, i + 30).is_none());
    }
    // The counter may wrap around.
    let average = m.count(u64::MAX - 9, 10_020).unwrap();
    assert_eq!((average.orders, average.cycles_per_order), (10_000, 31));
    assert_eq!((m.orders, m.cycles), (0, 0));
}

#[test]
fn benchmark_messages_go_round() {
    let a = benchmark_order(1_049, 3);
    assert_eq!((a.order_id, a.timestamp_ns, a.price_ticks), (1_049, 3, 5_000_049));
    assert_eq!((a.quantity, a.side, a.order_type, a.origin_ts), (149, 1, 1, 0));
    let b = benchmark_order(2_000, 3);
    assert_eq!((b.price_ticks, b.quantity, b.side), (5_000_000, 100, 0));
}

#[test]
fn gaps_count_as_losses() {
    let mut s = BenchSubscriber::new();
    // The warm-up counts neither latencies nor losses.
    for k in 0..WARMUP_RECEIVES {
        let id = if k % 2 == 0 { u64::MAX } else { 7 };
        assert!(s.can_receive(id));
        assert!(s.receive(id, 1_000_000).is_none());
    }
    let mut window = None;
    let mut id = 500u64;
    for k in 0..REPORT_INTERVAL as u64 {
        assert!(window.is_none());
        window = s.receive(id, k % 1_000);
        id += if k % 10_000 == 9 { 4 } else { 1 };
    }
    let w: BenchWindow = window.unwrap();
    assert_eq!((w.latencies.len(), w.received, w.lost), (100_000, 100_000, 30));
    // A message from behind misses nothing, and the next one counts from there.
    assert!(s.can_receive(3));
    assert!(s.receive(3, 1).is_none());
    assert!(s.can_receive(u64::MAX));
    assert!(s.receive(u64::MAX, 1).is_none());
    assert!(s.receive(0, 1).is_none());
    assert!(s.can_receive(5));
    assert!(!s.can_receive(u64::MAX));
    assert_eq!(
        bench_line(&w, "0.0300").unwrap(),
        "n=  100000  Min=      0 ns  P50=    499 ns  P99=    989 ns  P99.9=    998 ns  \
         Max=    999 ns  loss=0.0300% (30 lost)"
    );
    assert!(bench_line(&BenchWindow { latencies: vec![], received: 0, lost: 0 }, "0").is_none());
}

#[test]
fn names_on_the_bus() {
    assert_eq!(ORDER_SERVICE, "Trading/Orders/Commands");
    assert_eq!(MARKET_SERVICE, "Trading/Market/Ticks");
    assert_eq!(EXECUTION_SERVICE, "Trading/Orders/Executions");
    let names = [
        ORDER_SERVICE,
        MARKET_SERVICE,
        EXECUTION_SERVICE,
        BOOK_SERVICE,
        ORDER_EVENT,
        MARKET_EVENT,
        service_names::MARKET_DATA_TRADES,
        service_names::MARKET_DATA_ORDERBOOK,
        service_names::MARKET_DATA_TICKER,
        service_names::MARKET_DATA_OHLCV,
        service_names::OMS_CREATE_ORDER,
        service_names::OMS_CANCEL_ORDER,
        service_names::OMS_MODIFY_ORDER,
        service_names::OMS_GET_ORDER,
        service_names::OMS_ORDER_UPDATES,
        service_names::HOT_PATH_ORDER_EXECUTION,
    ];
    for (i, a) in names.iter().enumerate() {
        assert!(names[i + 1..].iter().all(|b| a != b));
    }
}
