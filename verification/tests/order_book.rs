use rust_hotpath_ipc::order_book::{Book, Outcome, Reject, Side};

// Convenience: rest a maker order (limit that does not cross) and return its id.
fn rest(book: &mut Book, id: u64, side: Side, px: i64, qty: u64) {
    let mut fills = Vec::new();
    let out = book.submit(id, side, true, px, qty, 0, true, &mut fills);
    assert!(
        matches!(out, Outcome::Rested { .. }),
        "expected the maker to rest, got {out:?}"
    );
    assert!(fills.is_empty(), "a resting maker should not fill");
}

#[test]
fn order_book_marketable_order_fills_against_resting_liquidity() {
    let mut book = Book::new();
    rest(&mut book, 1, Side::Sell, 100, 5); // ask 5 @100
    let mut fills = Vec::new();
    // market buy 3 -> fills 3 @100, ask left with 2.
    let out = book.submit(10, Side::Buy, false, 0, 3, 0, false, &mut fills);
    assert_eq!(out, Outcome::Filled);
    assert_eq!(fills.len(), 1);
    assert_eq!(fills[0].price_ticks, 100);
    assert_eq!(fills[0].quantity, 3);
    assert_eq!(fills[0].taker_remaining_after, 0); // terminal fill
    assert_eq!(book.size_at(Side::Sell, 100), 2);
}

#[test]
fn order_book_passive_order_rests_records_queue_position_and_advances() {
    let mut book = Book::new();
    rest(&mut book, 1, Side::Buy, 99, 4); // maker bid 4 @99
    let mut fills = Vec::new();
    // our limit buy 2 @99 does not cross (no ask); it rests BEHIND the maker.
    let out = book.submit(10, Side::Buy, true, 99, 2, 0, false, &mut fills);
    assert_eq!(out, Outcome::Rested { queue_ahead: 4 });
    assert!(fills.is_empty());
    assert_eq!(book.size_at(Side::Buy, 99), 6);

    // A crossing sell of 4 clears the maker ahead; our order advances to front.
    let mut f2 = Vec::new();
    let out2 = book.submit(20, Side::Sell, false, 0, 4, 0, true, &mut f2);
    assert_eq!(out2, Outcome::Filled);
    // The maker (id 1) filled, not us (id 10): time priority.
    assert!(f2.iter().all(|f| f.maker_order_id == 1));
    assert_eq!(book.size_at(Side::Buy, 99), 2); // only our 2 left, now at front
}

#[test]
fn order_book_large_order_partial_fills_across_levels() {
    let mut book = Book::new();
    rest(&mut book, 1, Side::Sell, 100, 2);
    rest(&mut book, 2, Side::Sell, 101, 2);
    rest(&mut book, 3, Side::Sell, 102, 2);
    let mut fills = Vec::new();
    // market buy 5 walks 100,101, then 1 @102.
    let out = book.submit(10, Side::Buy, false, 0, 5, 0, false, &mut fills);
    assert_eq!(out, Outcome::Filled);
    assert_eq!(fills.len(), 3);
    assert_eq!((fills[0].price_ticks, fills[0].quantity), (100, 2));
    assert_eq!((fills[1].price_ticks, fills[1].quantity), (101, 2));
    assert_eq!((fills[2].price_ticks, fills[2].quantity), (102, 1));
    // remaining_after decrements 5 -> 3 -> 1 -> 0
    assert_eq!(fills[0].taker_remaining_after, 3);
    assert_eq!(fills[1].taker_remaining_after, 1);
    assert_eq!(fills[2].taker_remaining_after, 0);
    assert_eq!(book.best_ask(), Some(102));
    assert_eq!(book.size_at(Side::Sell, 102), 1);
    assert_eq!(book.size_at(Side::Sell, 100), 0);
}

#[test]
fn order_book_cancel_removes_queue_size_and_advances_those_behind() {
    let mut book = Book::new();
    rest(&mut book, 1, Side::Buy, 99, 3); // A: 3 @99
    rest(&mut book, 2, Side::Buy, 99, 2); // B: 2 @99, behind A
    assert_eq!(book.size_at(Side::Buy, 99), 5);
    // cancel A
    assert_eq!(book.cancel(1), Outcome::Cancelled);
    assert_eq!(book.size_at(Side::Buy, 99), 2);
    // a crossing sell of 2 now fills B (proving A's slot is gone, B advanced).
    let mut fills = Vec::new();
    book.submit(20, Side::Sell, false, 0, 2, 0, true, &mut fills);
    assert!(fills.iter().all(|f| f.maker_order_id == 2));
    assert_eq!(book.size_at(Side::Buy, 99), 0);
}

#[test]
fn order_book_price_time_priority_respected_both_sides() {
    // Ask side: X then Y at best price 100, Z at 101. A buy of 2 hits X,Y first.
    let mut book = Book::new();
    rest(&mut book, 101, Side::Sell, 100, 1); // X (arrives first)
    rest(&mut book, 102, Side::Sell, 100, 1); // Y (arrives second)
    rest(&mut book, 103, Side::Sell, 101, 1); // Z (worse price)
    let mut fills = Vec::new();
    book.submit(10, Side::Buy, false, 0, 2, 0, false, &mut fills);
    assert_eq!(fills.len(), 2);
    assert_eq!(fills[0].maker_order_id, 101); // X first (time priority)
    assert_eq!(fills[1].maker_order_id, 102); // then Y
    assert_eq!(book.size_at(Side::Sell, 101), 1); // Z untouched

    // Bid side symmetry: highest bid fills first for an incoming sell.
    let mut book2 = Book::new();
    rest(&mut book2, 201, Side::Buy, 100, 1); // worse bid
    rest(&mut book2, 202, Side::Buy, 101, 1); // best bid
    let mut f2 = Vec::new();
    book2.submit(20, Side::Sell, false, 0, 1, 0, false, &mut f2);
    assert_eq!(f2.len(), 1);
    assert_eq!(f2[0].maker_order_id, 202); // best (highest) bid hit first
    assert_eq!(f2[0].price_ticks, 101);
}

#[test]
fn order_book_market_order_rejects_when_no_liquidity() {
    let mut book = Book::new();
    let mut fills = Vec::new();
    let out = book.submit(10, Side::Buy, false, 0, 5, 0, false, &mut fills);
    assert_eq!(out, Outcome::Rejected(Reject::NoLiquidity));
    assert!(fills.is_empty());
}

#[test]
fn order_book_origin_ts_threads_to_fill() {
    // The taker's origin_ts (T0) must ride onto its fills so tick-to-fill still
    // measures a real round-trip downstream.
    let mut book = Book::new();
    rest(&mut book, 1, Side::Sell, 100, 5);
    let mut fills = Vec::new();
    book.submit(10, Side::Buy, false, 0, 3, 987654321, false, &mut fills);
    assert_eq!(fills.len(), 1);
    assert_eq!(fills[0].taker_origin_ts, 987654321);
}

#[test]
fn order_book_cancel_unknown_order_is_rejected() {
    let mut book = Book::new();
    assert_eq!(book.cancel(999), Outcome::CancelRejected);
}

#[test]
fn a_limit_order_crosses_up_to_its_price_and_rests_the_remainder() {
    let mut book = Book::new();
    rest(&mut book, 1, Side::Sell, 100, 2);
    rest(&mut book, 2, Side::Sell, 105, 2);
    let mut fills = Vec::new();
    let out = book.submit(10, Side::Buy, true, 102, 5, 7, false, &mut fills);
    assert_eq!(out, Outcome::Rested { queue_ahead: 0 });
    assert_eq!(fills.len(), 1);
    assert_eq!(fills[0].quantity, 2);
    assert_eq!(fills[0].taker_remaining_after, 3);
    assert_eq!(book.best_bid(), Some(102));
    assert_eq!(book.best_ask(), Some(105));
    assert_eq!(book.size_at(Side::Buy, 102), 3);
    assert!(book.is_resting(10));
    assert!(!book.is_resting(1));
}

#[test]
fn a_cancel_undoes_an_order_that_only_rested() {
    let mut book = Book::new();
    rest(&mut book, 1, Side::Buy, 99, 3);
    rest(&mut book, 2, Side::Buy, 98, 4);
    assert_eq!(book.bid_level_count(), 2);
    rest(&mut book, 3, Side::Buy, 97, 9);
    assert_eq!(book.bid_level_count(), 3);
    assert_eq!(book.cancel(3), Outcome::Cancelled);
    assert_eq!(book.bid_level_count(), 2);
    assert_eq!(book.size_at(Side::Buy, 97), 0);
    assert_eq!(book.best_bid(), Some(99));
    assert_eq!(book.cancel(3), Outcome::CancelRejected);
}

#[test]
fn a_cancel_undoes_an_order_whose_id_once_rested_elsewhere() {
    let mut book = Book::new();
    rest(&mut book, 7, Side::Buy, 90, 2);
    rest(&mut book, 7, Side::Buy, 91, 3);
    assert_eq!(book.cancel(7), Outcome::Cancelled);
    assert!(!book.is_resting(7));
    // Something rests under the id at another price, but cannot be cancelled.
    assert_eq!((book.size_at(Side::Buy, 90), book.size_at(Side::Buy, 91)), (2, 0));
    rest(&mut book, 7, Side::Buy, 95, 4);
    assert_eq!(book.cancel(7), Outcome::Cancelled);
    assert_eq!((book.size_at(Side::Buy, 90), book.size_at(Side::Buy, 95)), (2, 0));
    assert_eq!(book.cancel(7), Outcome::CancelRejected);
}

#[test]
fn quantity_is_conserved_when_a_market_order_runs_dry() {
    let mut book = Book::new();
    rest(&mut book, 1, Side::Buy, 99, 3);
    rest(&mut book, 2, Side::Buy, 98, 4);
    let mut fills = Vec::new();
    let out = book.submit(10, Side::Sell, false, 0, 10, 0, false, &mut fills);
    assert_eq!(out, Outcome::Rejected(Reject::NoLiquidity));
    assert_eq!(fills.iter().map(|f| f.quantity).sum::<u64>(), 7);
    assert_eq!(fills.last().map(|f| f.taker_remaining_after), Some(3));
    assert_eq!(book.best_bid(), None);
    assert_eq!(book.bid_level_count(), 0);
}

#[test]
fn the_book_is_never_crossed() {
    let mut book = Book::new();
    let mut fills = Vec::new();
    let mut x: u64 = 12345;
    for id in 1..400u64 {
        x = x.wrapping_mul(6364136223846793005).wrapping_add(1442695040888963407);
        let side = Side::from_u8((x >> 40) as u8 % 2);
        let px = 100 + ((x >> 33) % 11) as i64;
        book.submit(id, side, true, px, 1 + (x >> 20) % 5, 0, false, &mut fills);
        if id % 7 == 0 {
            book.cancel(id / 2);
        }
        if let (Some(bid), Some(ask)) = (book.best_bid(), book.best_ask()) {
            assert!(bid < ask);
        }
    }
    assert!(!fills.is_empty());
}

#[test]
fn an_order_of_nothing_is_filled_at_once() {
    let mut book = Book::default();
    let mut fills = Vec::new();
    let out = book.submit(1, Side::Buy, true, 100, 0, 0, false, &mut fills);
    assert_eq!(out, Outcome::Filled);
    assert!(fills.is_empty());
    assert_eq!(book.best_bid(), None);
}

#[test]
fn reject_code_and_side_byte() {
    assert_eq!(Reject::NoLiquidity.code(), 2);
    assert_eq!(Side::from_u8(0), Side::Buy);
    assert_eq!(Side::from_u8(1), Side::Sell);
    assert_eq!(Side::from_u8(200), Side::Sell);
    assert_eq!(Side::Buy.opposite(), Side::Sell);
}
