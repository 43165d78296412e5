use rust_hotpath_ipc::exchange::{
    maker_report, match_strategy_order, order_of, pace, reject_report, taker_report, Pace,
    Participants, Rng, TopOfBook, SYNTHETIC_BIT, UNIT,
};
use rust_hotpath_ipc::hot_path::OrderCommand;
use rust_hotpath_ipc::order_book::{Book, Fill, Outcome, Reject, Side};
use rust_hotpath_ipc::pipeline::FillLedger;

// Convenience: rest a maker order (limit that does not cross) and return its id.
fn rest(book: &mut Book, id: u64, side: Side, px: i64, qty: u64) {
    let mut fills = Vec::new();
    let out = book.submit(id, side, true, px, qty, 0, true, &mut fills);
    assert!(
        matches!(out, Outcome::Rested { .. }),
        "expected the maker to rest, got {out:?}"
    );
    assert!(fills.is_empty(), "a resting maker should not fill");
}

#[test]
fn exchange_marketable_order_fills_against_resting_liquidity() {
    let mut book = Book::new();
    rest(&mut book, 1, Side::Sell, 100, 5); // ask 5 @100
    let mut fills = Vec::new();
    // market buy 3 -> fills 3 @100, ask left with 2.
    let out = book.submit(10, Side::Buy, false, 0, 3, 0, false, &mut fills);
    assert_eq!(out, Outcome::Filled);
    assert_eq!(fills.len(), 1);
    assert_eq!(fills[0].price_ticks, 100);
    assert_eq!(fills[0].quantity, 3);
    assert_eq!(fills[0].taker_remaining_after, 0); // terminal fill
    assert_eq!(book.size_at(Side::Sell, 100), 2);
}

#[test]
fn exchange_passive_order_rests_records_queue_position_and_advances() {
    let mut book = Book::new();
    rest(&mut book, 1, Side::Buy, 99, 4); // maker bid 4 @99
    let mut fills = Vec::new();
    // our limit buy 2 @99 does not cross (no ask); it rests BEHIND the maker.
    let out = book.submit(10, Side::Buy, true, 99, 2, 0, false, &mut fills);
    assert_eq!(out, Outcome::Rested { queue_ahead: 4 });
    assert!(fills.is_empty());
    assert_eq!(book.size_at(Side::Buy, 99), 6);

    // A crossing sell of 4 clears the maker ahead; our order advances to front.
    let mut f2 = Vec::new();
    let out2 = book.submit(20, Side::Sell, false, 0, 4, 0, true, &mut f2);
    assert_eq!(out2, Outcome::Filled);
    // The maker (id 1) filled, not us (id 10): time priority.
    assert!(f2.iter().all(|f| f.maker_order_id == 1));
    assert_eq!(book.size_at(Side::Buy, 99), 2); // only our 2 left, now at front
}

#[test]
fn exchange_large_order_partial_fills_across_levels() {
    let mut book = Book::new();
    rest(&mut book, 1, Side::Sell, 100, 2);
    rest(&mut book, 2, Side::Sell, 101, 2);
    rest(&mut book, 3, Side::Sell, 102, 2);
    let mut fills = Vec::new();
    // market buy 5 walks 100,101, then 1 @102.
    let out = book.submit(10, Side::Buy, false, 0, 5, 0, false, &mut fills);
    assert_eq!(out, Outcome::Filled);
    assert_eq!(fills.len(), 3);
    assert_eq!((fills[0].price_ticks, fills[0].quantity), (100, 2));
    assert_eq!((fills[1].price_ticks, fills[1].quantity), (101, 2));
    assert_eq!((fills[2].price_ticks, fills[2].quantity), (102, 1));
    // remaining_after decrements 5 -> 3 -> 1 -> 0
    assert_eq!(fills[0].taker_remaining_after, 3);
    assert_eq!(fills[1].taker_remaining_after, 1);
    assert_eq!(fills[2].taker_remaining_after, 0);
    assert_eq!(book.best_ask(), Some(102));
    assert_eq!(book.size_at(Side::Sell, 102), 1);
    assert_eq!(book.size_at(Side::Sell, 100), 0);
}

#[test]
fn exchange_cancel_removes_queue_size_and_advances_those_behind() {
    let mut book = Book::new();
    rest(&mut book, 1, Side::Buy, 99, 3); // A: 3 @99
    rest(&mut book, 2, Side::Buy, 99, 2); // B: 2 @99, behind A
    assert_eq!(book.size_at(Side::Buy, 99), 5);
    // cancel A
    assert_eq!(book.cancel(1), Outcome::Cancelled);
    assert_eq!(book.size_at(Side::Buy, 99), 2);
    // a crossing sell of 2 now fills B (proving A's slot is gone, B advanced).
    let mut fills = Vec::new();
    book.submit(20, Side::Sell, false, 0, 2, 0, true, &mut fills);
    assert!(fills.iter().all(|f| f.maker_order_id == 2));
    assert_eq!(book.size_at(Side::Buy, 99), 0);
}

#[test]
fn exchange_price_time_priority_respected_both_sides() {
    // Ask side: X then Y at best price 100, Z at 101. A buy of 2 hits X,Y first.
    let mut book = Book::new();
    rest(&mut book, 101, Side::Sell, 100, 1); // X (arrives first)
    rest(&mut book, 102, Side::Sell, 100, 1); // Y (arrives second)
    rest(&mut book, 103, Side::Sell, 101, 1); // Z (worse price)
    let mut fills = Vec::new();
    book.submit(10, Side::Buy, false, 0, 2, 0, false, &mut fills);
    assert_eq!(fills.len(), 2);
    assert_eq!(fills[0].maker_order_id, 101); // X first (time priority)
    assert_eq!(fills[1].maker_order_id, 102); // then Y
    assert_eq!(book.size_at(Side::Sell, 101), 1); // Z untouched

    // Bid side symmetry: highest bid fills first for an incoming sell.
    let mut book2 = Book::new();
    rest(&mut book2, 201, Side::Buy, 100, 1); // worse bid
    rest(&mut book2, 202, Side::Buy, 101, 1); // best bid
    let mut f2 = Vec::new();
    book2.submit(20, Side::Sell, false, 0, 1, 0, false, &mut f2);
    assert_eq!(f2.len(), 1);
    assert_eq!(f2[0].maker_order_id, 202); // best (highest) bid hit first
    assert_eq!(f2[0].price_ticks, 101);
}

#[test]
fn exchange_market_order_rejects_when_no_liquidity() {
    let mut book = Book::new();
    let mut fills = Vec::new();
    let out = book.submit(10, Side::Buy, false, 0, 5, 0, false, &mut fills);
    assert_eq!(out, Outcome::Rejected(Reject::NoLiquidity));
    assert!(fills.is_empty());
}

#[test]
fn exchange_origin_ts_threads_to_fill() {
    // The taker's origin_ts (T0) must ride onto its fills so tick-to-fill still
    // measures a real round-trip downstream.
    let mut book = Book::new();
    rest(&mut book, 1, Side::Sell, 100, 5);
    let mut fills = Vec::new();
    book.submit(10, Side::Buy, false, 0, 3, 987654321, false, &mut fills);
    assert_eq!(fills.len(), 1);
    assert_eq!(fills[0].taker_origin_ts, 987654321);
}

#[test]
fn exchange_cancel_unknown_order_is_rejected() {
    let mut book = Book::new();
    assert_eq!(book.cancel(999), Outcome::CancelRejected);
}

fn command(order_id: u64, side: u8, order_type: u8, action: u8, px: i64, qty: u64) -> OrderCommand {
    OrderCommand {
        timestamp_ns: 0,
        order_id,
        price_ticks: px,
        quantity: qty,
        origin_ts: 55,
        symbol_id: 1,
        user_id: 1,
        side,
        order_type,
        action,
        flags: 0,
        exchange_id: 1,
        priority: 0,
    }
}

#[test]
fn commands_place_replace_and_cancel() {
    let mut book = Book::new();
    let mut fills = Vec::new();
    match_strategy_order(&mut book, &command(5, 0, 1, 0, 99, 4), &mut fills);
    assert_eq!(book.size_at(Side::Buy, 99), 4);
    match_strategy_order(&mut book, &command(5, 0, 1, 2, 98, 6), &mut fills);
    assert_eq!(book.size_at(Side::Buy, 99), 0);
    assert_eq!(book.size_at(Side::Buy, 98), 6);
    match_strategy_order(&mut book, &command(6, 1, 0, 0, 0, 2), &mut fills);
    assert_eq!(fills.len(), 1);
    assert_eq!(fills[0].maker_order_id, 5);
    assert_eq!(fills[0].taker_origin_ts, 55);
    match_strategy_order(&mut book, &command(5, 0, 1, 1, 0, 0), &mut fills);
    assert_eq!(book.best_bid(), None);
    assert_eq!(fills.len(), 1);
}

fn sample_fill(taker_synthetic: bool, maker_synthetic: bool, left: u64) -> Fill {
    Fill {
        taker_order_id: 7,
        maker_order_id: 9,
        price_ticks: 100,
        quantity: 3,
        taker_origin_ts: 1,
        taker_remaining_after: left,
        maker_remaining_after: left,
        taker_is_synthetic: taker_synthetic,
        maker_is_synthetic: maker_synthetic,
    }
}

#[test]
fn taker_reports_tell_partial_from_filled() {
    let partial = taker_report(&sample_fill(false, true, 2), 11, 4).unwrap();
    assert_eq!((partial.order_id, partial.status, partial.remaining_quantity), (7, 1, 2));
    assert_eq!((partial.timestamp_ns, partial.commission), (11, 4));
    let last = taker_report(&sample_fill(false, true, 0), 11, 4).unwrap();
    assert_eq!(last.status, 2);
    assert!(taker_report(&sample_fill(true, false, 0), 11, 4).is_none());
}

#[test]
fn maker_reports_tell_partial_from_filled() {
    let r = maker_report(&sample_fill(true, false, 2), 11, 4).unwrap();
    assert_eq!((r.order_id, r.status, r.remaining_quantity), (9, 1, 2));
    assert_eq!((r.executed_price, r.executed_quantity), (100, 3));
    let r = maker_report(&sample_fill(true, false, 0), 11, 4).unwrap();
    assert_eq!((r.order_id, r.status, r.remaining_quantity), (9, 2, 0));
    assert!(maker_report(&sample_fill(false, true, 0), 11, 4).is_none());
}

#[test]
fn a_resting_order_that_is_hit_in_pieces_is_booked_in_full() {
    let mut book = Book::new();
    let mut ledger = FillLedger::new();
    let mut fills = Vec::new();
    let cmd = command(5, 0, 1, 0, 99, 6);
    ledger.note_order(&cmd);
    match_strategy_order(&mut book, &cmd, &mut fills);
    let mut booked = Vec::new();
    for (id, qty) in [(101, 2), (102, 3), (103, 4)] {
        fills.clear();
        book.submit(id, Side::Sell, false, 0, qty, 0, true, &mut fills);
        for f in &fills {
            let r = maker_report(f, 100 + id, 0).unwrap();
            booked.push((r.status, r.remaining_quantity, ledger.on_report(&r).unwrap()));
        }
    }
    let pieces: Vec<_> = booked.iter().map(|(s, left, f)| (*s, *left, f.quantity)).collect();
    assert_eq!(pieces, vec![(1, 4, 2), (1, 1, 3), (2, 0, 1)]);
    assert_eq!((ledger.fills(), ledger.orders_filled()), (3, 1));
    assert_eq!(booked[2].2.tick_to_fill, Some(203 - 55));
    assert!(booked[0].2.tick_to_fill.is_none());
}

#[test]
fn a_modified_order_loses_its_place() {
    let mut book = Book::new();
    let mut fills = Vec::new();
    match_strategy_order(&mut book, &command(5, 0, 1, 0, 99, 2), &mut fills);
    match_strategy_order(&mut book, &command(6, 0, 1, 0, 99, 2), &mut fills);
    let out = match_strategy_order(&mut book, &command(5, 0, 1, 2, 99, 2), &mut fills);
    assert_eq!(out, Outcome::Rested { queue_ahead: 2 });
    book.submit(20, Side::Sell, false, 0, 3, 0, true, &mut fills);
    assert_eq!((fills[0].maker_order_id, fills[1].maker_order_id), (6, 5));
    assert_eq!((fills[0].maker_remaining_after, fills[1].maker_remaining_after), (0, 1));
}

#[test]
fn rejects_are_reported_with_their_reason() {
    let mut book = Book::new();
    let mut fills = Vec::new();
    let cmd = command(10, 0, 0, 0, 0, 5);
    let outcome = match_strategy_order(&mut book, &cmd, &mut fills);
    assert_eq!(outcome, Outcome::Rejected(Reject::NoLiquidity));
    let r = reject_report(&cmd, &fills, outcome, 11).unwrap();
    assert_eq!((r.timestamp_ns, r.order_id, r.exchange_order_id), (11, 10, 10));
    assert_eq!((r.status, r.reject_reason, r.remaining_quantity), (3, 2, 5));
    assert_eq!((r.executed_price, r.executed_quantity, r.commission), (0, 0, 0));

    // What traded before the book ran dry is not reported again.
    rest(&mut book, 1, Side::Sell, 100, 1);
    rest(&mut book, 2, Side::Sell, 101, 2);
    let outcome = match_strategy_order(&mut book, &cmd, &mut fills);
    assert_eq!(fills.len(), 2);
    assert_eq!(reject_report(&cmd, &fills, outcome, 11).unwrap().remaining_quantity, 2);
}

#[test]
fn other_outcomes_are_no_rejects() {
    let mut book = Book::new();
    let mut fills = Vec::new();
    rest(&mut book, 1, Side::Sell, 100, 4);
    for (cmd, expected) in [
        (command(10, 0, 0, 0, 0, 3), Outcome::Filled),
        (command(11, 0, 1, 0, 99, 3), Outcome::Rested { queue_ahead: 0 }),
        (command(11, 0, 1, 1, 0, 0), Outcome::Cancelled),
        (command(11, 0, 1, 1, 0, 0), Outcome::CancelRejected),
        (command(12, 0, 1, 2, 99, 3), Outcome::Rested { queue_ahead: 0 }),
    ] {
        let outcome = match_strategy_order(&mut book, &cmd, &mut fills);
        assert_eq!(outcome, expected);
        assert!(reject_report(&cmd, &fills, outcome, 11).is_none());
    }
}

#[test]
fn a_level_has_room_for_what_would_rest() {
    let mut book = Book::new();
    let mut fills = Vec::new();
    let order = |side, px| order_of(&command(10, side, 1, 0, px, 0));
    assert!(book.has_room(&order(0, 100), u64::MAX));
    rest(&mut book, 1, Side::Buy, 100, 5);
    assert!(book.has_room(&order(0, 100), u64::MAX - 5));
    assert!(!book.has_room(&order(0, 100), u64::MAX - 4));
    assert!(book.has_room(&order(0, 99), u64::MAX));
    // An order that trades on the way finds its level empty.
    rest(&mut book, 2, Side::Sell, 102, 3);
    assert!(book.has_room(&order(0, 102), u64::MAX));
    assert!(!book.has_room(&order(1, 102), u64::MAX));
    assert!(book.has_room(&order(1, 100), u64::MAX));
    let out = match_strategy_order(&mut book, &command(9, 0, 1, 0, 102, u64::MAX), &mut fills);
    assert_eq!((out, fills.len()), (Outcome::Rested { queue_ahead: 0 }, 1));
    assert_eq!(book.size_at(Side::Buy, 102), u64::MAX - 3);
    assert!(book.has_room(&order(0, 102), 3));
    assert!(!book.has_room(&order(0, 102), 4));
    // A market order never rests.
    assert!(book.has_room(&order_of(&command(10, 0, 0, 0, 100, 0)), u64::MAX));
}

#[test]
fn generator_is_reproducible() {
    let mut a = Rng::new(42);
    let mut b = Rng::new(42);
    assert_eq!(a.state, 43);
    // xorshift64*: state 43 gives this first draw.
    let x = 43u64;
    let x = x ^ (x >> 12);
    let x = x ^ (x << 25);
    let x = x ^ (x >> 27);
    assert_eq!(a.next_u64(), x.wrapping_mul(0x2545F4914F6CDD1D));
    b.next_u64();
    assert_eq!(a.unit(), b.unit());
    for _ in 0..100 {
        assert!(a.below(7) < 7);
        assert!(a.unit() < 1 << 53);
    }
    assert_eq!(a.below(0), 0);
}

#[test]
fn participants_keep_the_book_two_sided() {
    let mut book = Book::new();
    let mut crowd = Participants::new(42);
    let mut fills = Vec::new();
    for round in 0..200i64 {
        crowd.step_fair_value();
        let half = crowd.half_spread() as i64 * UNIT as i64;
        let fair = 50_000 * UNIT as i64 + (round % 9) * UNIT as i64;
        assert!(crowd.act(&mut book, fair - half, fair + half, &mut fills));
    }
    assert!(book.best_bid().is_some());
    assert!(book.best_ask().is_some());
    assert!(book.best_bid() < book.best_ask());
    assert!(fills.iter().all(|f| f.taker_is_synthetic && f.maker_is_synthetic));
    assert!(fills.iter().all(|f| f.maker_order_id >= SYNTHETIC_BIT));
    assert!(crowd.next_id() > 400);
}

#[test]
fn the_same_seed_gives_the_same_market() {
    let run = |seed: u64| {
        let mut book = Book::new();
        let mut crowd = Participants::new(seed);
        let mut fills = Vec::new();
        let mut steps = Vec::new();
        for _ in 0..50 {
            steps.push(crowd.step_fair_value());
            let half = crowd.half_spread() as i64 * UNIT as i64;
            crowd.act(&mut book, -half, half, &mut fills);
        }
        (steps, fills, book.best_bid(), book.best_ask())
    };
    assert_eq!(run(7), run(7));
    assert!(run(7) != run(8));
}

#[test]
fn a_regime_is_drawn_when_the_old_one_is_over() {
    let mut crowd = Participants::new(1);
    assert!(crowd.step_fair_value().regime.is_some());
    for _ in 0..1_999 {
        assert!(crowd.step_fair_value().regime.is_none());
    }
}

#[test]
fn top_of_book_is_published_when_it_moves() {
    let mut book = Book::new();
    let mut top = TopOfBook::new();
    assert!(top.publish(&book, 1).is_none());
    rest(&mut book, 1, Side::Buy, 100, 5);
    let (tick, snap) = top.publish(&book, 2).unwrap();
    assert_eq!((tick.price, tick.bid, tick.ask, tick.sequence), (100, 100, 0, 1));
    assert_eq!((snap.spread, snap.depth, snap.bid_size), (0, 1, 5));
    rest(&mut book, 2, Side::Sell, 105, 2);
    let (tick, snap) = top.publish(&book, 3).unwrap();
    assert_eq!((tick.price, tick.quantity, tick.sequence), (102, 100_000_000, 2));
    assert_eq!((snap.mid_price, snap.spread, snap.ask_size), (102, 5, 2));
    assert_eq!(snap.timestamp_ns, 3);
    // More size at the same prices moves nothing.
    rest(&mut book, 3, Side::Buy, 100, 1);
    assert!(top.publish(&book, 4).is_none());
}

#[test]
fn rounds_are_paced() {
    assert_eq!(pace(0, 0, true, true), Pace::Round);
    assert_eq!(pace(100, 100, false, false), Pace::Round);
    assert_eq!(pace(100, 40, true, true), Pace::GoOn);
    assert_eq!(pace(100, 40, false, true), Pace::Block(60));
    assert_eq!(pace(100, 40, false, false), Pace::Spin);
}
