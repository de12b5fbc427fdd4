use orderbook::order::{Event, Order, Side, TradeType};
use orderbook::orderbook::{stamp_of_reading, OrderBook};

fn order(id: u64, side: Side, price: u64, quantity: u64) -> Order {
    Order { id, side, price, quantity, trade_type: TradeType::Limit }
}

fn accepted(id: u64, t: u64) -> Event {
    Event::Accepted { order_id: id, timestamp: t }
}

fn rested(id: u64, t: u64) -> Event {
    Event::Rested { order_id: id, timestamp: t }
}

fn trade(buy: u64, sell: u64, price: u64, qty: u64, t: u64) -> Event {
    Event::Trade { buy_order_id: buy, sell_order_id: sell, price, qty, timestamp: t }
}

fn fulfilled(id: u64, t: u64) -> Event {
    Event::RestingFulfilled { order_id: id, timestamp: t }
}

#[test]
fn new_book_is_empty() {
    let book = OrderBook::new();
    assert!(book.get_outstanding(Side::Buy).is_empty());
    assert!(book.get_outstanding(Side::Sell).is_empty());
    assert_eq!(book.best_bid(), None);
    assert_eq!(book.best_ask(), None);
}

#[test]
fn order_on_empty_book_rests() {
    let mut book = OrderBook::new();
    let o = order(1, Side::Buy, 100, 10);
    let events = book.submit_at(o, 7);
    assert_eq!(events, vec![accepted(1, 7), rested(1, 7)]);
    assert_eq!(book.get_outstanding(Side::Buy), vec![o]);
    assert!(book.get_outstanding(Side::Sell).is_empty());
    assert_eq!(book.best_bid(), Some(100));
}

#[test]
fn non_crossing_orders_both_rest() {
    let mut book = OrderBook::new();
    book.submit_at(order(1, Side::Buy, 99, 5), 1);
    let events = book.submit_at(order(2, Side::Sell, 101, 5), 2);
    assert_eq!(events, vec![accepted(2, 2), rested(2, 2)]);
    assert_eq!(book.best_bid(), Some(99));
    assert_eq!(book.best_ask(), Some(101));
}

#[test]
fn partial_fill_of_resting_order_reports_its_quantity_before_the_fill() {
    let mut book = OrderBook::new();
    book.submit_at(order(1, Side::Sell, 100, 10), 1);
    let events = book.submit_at(order(2, Side::Buy, 101, 4), 2);
    // The trade reports the resting order's price and its quantity before the fill.
    assert_eq!(events, vec![accepted(2, 2), trade(2, 1, 100, 10, 2)]);
    assert_eq!(book.get_outstanding(Side::Sell), vec![order(1, Side::Sell, 100, 6)]);
    assert!(book.get_outstanding(Side::Buy).is_empty());
}

#[test]
fn sweep_walks_levels_from_best_price() {
    let mut book = OrderBook::new();
    book.submit_at(order(1, Side::Sell, 101, 5), 1);
    book.submit_at(order(2, Side::Sell, 100, 5), 1);
    book.submit_at(order(3, Side::Sell, 103, 5), 1);
    let events = book.submit_at(order(4, Side::Buy, 102, 8), 9);
    assert_eq!(
        events,
        vec![
            accepted(4, 9),
            trade(4, 2, 100, 5, 9),
            fulfilled(2, 9),
            trade(4, 1, 101, 5, 9),
        ]
    );
    assert_eq!(
        book.get_outstanding(Side::Sell),
        vec![order(1, Side::Sell, 101, 2), order(3, Side::Sell, 103, 5)]
    );
}

#[test]
fn leftover_of_crossing_order_rests() {
    let mut book = OrderBook::new();
    book.submit_at(order(1, Side::Sell, 100, 3), 1);
    let events = book.submit_at(order(2, Side::Buy, 100, 5), 2);
    assert_eq!(events, vec![accepted(2, 2), trade(2, 1, 100, 3, 2), fulfilled(1, 2), rested(2, 2)]);
    assert_eq!(book.get_outstanding(Side::Buy), vec![order(2, Side::Buy, 100, 2)]);
    assert!(book.get_outstanding(Side::Sell).is_empty());
    // The emptied ask level stays in the book.
    assert_eq!(book.best_ask(), Some(100));
}

#[test]
fn time_priority_within_a_level() {
    let mut book = OrderBook::new();
    book.submit_at(order(1, Side::Buy, 100, 2), 1);
    book.submit_at(order(2, Side::Buy, 100, 2), 2);
    let events = book.submit_at(order(3, Side::Sell, 100, 3), 3);
    assert_eq!(
        events,
        vec![accepted(3, 3), trade(3, 1, 100, 2, 3), fulfilled(1, 3), trade(3, 2, 100, 2, 3)]
    );
    assert_eq!(book.get_outstanding(Side::Buy), vec![order(2, Side::Buy, 100, 1)]);
}

#[test]
fn sell_walks_bids_from_highest_and_names_itself_as_buyer() {
    let mut book = OrderBook::new();
    book.submit_at(order(1, Side::Buy, 100, 5), 1);
    book.submit_at(order(2, Side::Buy, 102, 5), 1);
    let events = book.submit_at(order(3, Side::Sell, 101, 10), 4);
    // The incoming order's id is reported in the buy_order_id field whatever its side.
    assert_eq!(
        events,
        vec![accepted(3, 4), trade(3, 2, 102, 5, 4), fulfilled(2, 4), rested(3, 4)]
    );
    assert_eq!(book.get_outstanding(Side::Buy), vec![order(1, Side::Buy, 100, 5)]);
    assert_eq!(book.get_outstanding(Side::Sell), vec![order(3, Side::Sell, 101, 5)]);
}

#[test]
fn order_with_zero_quantity_neither_trades_nor_rests() {
    let mut book = OrderBook::new();
    book.submit_at(order(1, Side::Sell, 100, 5), 1);
    let events = book.submit_at(order(2, Side::Buy, 100, 0), 2);
    assert_eq!(events, vec![accepted(2, 2)]);
    assert_eq!(book.get_outstanding(Side::Sell), vec![order(1, Side::Sell, 100, 5)]);
    assert!(book.get_outstanding(Side::Buy).is_empty());
}

#[test]
fn every_kind_of_order_is_handled_as_a_limit_order() {
    let mut book = OrderBook::new();
    let market = Order { id: 1, side: Side::Buy, price: 90, quantity: 5, trade_type: TradeType::Market };
    let events = book.submit_at(market, 1);
    assert_eq!(events, vec![accepted(1, 1), rested(1, 1)]);
    let ioc = Order { id: 2, side: Side::Sell, price: 95, quantity: 5, trade_type: TradeType::Ioc };
    let events = book.submit_at(ioc, 2);
    assert_eq!(events, vec![accepted(2, 2), rested(2, 2)]);
}

#[test]
fn outstanding_orders_come_by_ascending_price() {
    let mut book = OrderBook::new();
    book.submit_at(order(1, Side::Buy, 98, 1), 1);
    book.submit_at(order(2, Side::Buy, 100, 1), 1);
    book.submit_at(order(3, Side::Buy, 99, 1), 1);
    book.submit_at(order(4, Side::Buy, 100, 2), 1);
    assert_eq!(
        book.get_outstanding(Side::Buy),
        vec![
            order(1, Side::Buy, 98, 1),
            order(3, Side::Buy, 99, 1),
            order(2, Side::Buy, 100, 1),
            order(4, Side::Buy, 100, 2),
        ]
    );
    book.submit_at(order(5, Side::Sell, 105, 1), 1);
    book.submit_at(order(6, Side::Sell, 103, 1), 1);
    assert_eq!(
        book.get_outstanding(Side::Sell),
        vec![order(6, Side::Sell, 103, 1), order(5, Side::Sell, 105, 1)]
    );
}

#[test]
fn cancel_resting_order() {
    let mut book = OrderBook::new();
    book.submit_at(order(1, Side::Buy, 100, 5), 1);
    book.submit_at(order(2, Side::Buy, 100, 6), 1);
    let events = book.cancel_at(1, 3);
    assert_eq!(events, vec![accepted(1, 3), Event::Cancelled { order_id: 1, timestamp: 3 }]);
    assert_eq!(book.get_outstanding(Side::Buy), vec![order(2, Side::Buy, 100, 6)]);
    // A second cancel no longer finds it.
    let events = book.cancel_at(1, 4);
    assert_eq!(
        events,
        vec![
            accepted(1, 4),
            Event::Rejected { order_id: 1, reason: String::from("Order not found"), timestamp: 4 }
        ]
    );
}

#[test]
fn cancel_unknown_order_is_rejected() {
    let mut book = OrderBook::new();
    let events = book.cancel_at(42, 5);
    assert_eq!(
        events,
        vec![
            accepted(42, 5),
            Event::Rejected { order_id: 42, reason: String::from("Order not found"), timestamp: 5 }
        ]
    );
}

#[test]
fn cancel_after_full_fill_is_rejected() {
    let mut book = OrderBook::new();
    book.submit_at(order(1, Side::Sell, 100, 5), 1);
    book.submit_at(order(2, Side::Buy, 100, 5), 2);
    let events = book.cancel_at(1, 3);
    assert_eq!(
        events[1],
        Event::Rejected { order_id: 1, reason: String::from("Order not found"), timestamp: 3 }
    );
}

#[test]
fn cancel_of_partly_filled_order_succeeds() {
    let mut book = OrderBook::new();
    book.submit_at(order(1, Side::Sell, 100, 5), 1);
    book.submit_at(order(2, Side::Buy, 100, 3), 2);
    let events = book.cancel_at(1, 3);
    assert_eq!(events[1], Event::Cancelled { order_id: 1, timestamp: 3 });
    assert!(book.get_outstanding(Side::Sell).is_empty());
}

#[test]
fn submit_and_cancel_stamp_all_events_alike() {
    let mut book = OrderBook::new();
    book.submit(order(1, Side::Sell, 100, 5));
    let events = book.submit(order(2, Side::Buy, 100, 7));
    assert_eq!(events.len(), 4);
    let t = events[0].timestamp();
    assert_eq!(events[0], accepted(2, t));
    assert_eq!(events[1], trade(2, 1, 100, 5, t));
    assert_eq!(events[2], fulfilled(1, t));
    assert_eq!(events[3], rested(2, t));
    let events = book.cancel_trade(2);
    let t = events[0].timestamp();
    assert_eq!(events, vec![accepted(2, t), Event::Cancelled { order_id: 2, timestamp: t }]);
}

#[test]
fn clock_reads_after_the_epoch() {
    // 2001-09-09 in nanoseconds: any clock running today reads later.
    assert!(orderbook::orderbook::now_ts() > 1_000_000_000_000_000_000);
}

#[test]
fn depth_sums_each_level_in_book_order() {
    let mut book = OrderBook::new();
    book.submit_at(order(1, Side::Buy, 99, 3), 1);
    book.submit_at(order(2, Side::Buy, 100, 4), 1);
    book.submit_at(order(3, Side::Buy, 99, 5), 1);
    book.submit_at(order(4, Side::Sell, 102, 1), 1);
    book.submit_at(order(5, Side::Sell, 101, 2), 1);
    assert_eq!(book.depth(Side::Buy), Some(vec![(100, 4), (99, 8)]));
    assert_eq!(book.depth(Side::Sell), Some(vec![(101, 2), (102, 1)]));
}

#[test]
fn depth_refuses_a_level_too_large_for_u64() {
    let mut book = OrderBook::new();
    book.submit_at(order(1, Side::Buy, 99, u64::MAX), 1);
    book.submit_at(order(2, Side::Buy, 99, 1), 1);
    assert_eq!(book.depth(Side::Buy), None);
    assert_eq!(book.depth(Side::Sell), Some(vec![]));
}

#[test]
fn uncrossed_book_scenario() {
    // Whatever is submitted, no bid holding orders stands at or above an ask holding orders.
    let mut book = OrderBook::new();
    book.submit_at(order(1, Side::Sell, 100, 5), 1);
    book.submit_at(order(2, Side::Buy, 105, 8), 2);
    book.submit_at(order(3, Side::Sell, 104, 1), 3);
    let bids = book.get_outstanding(Side::Buy);
    let asks = book.get_outstanding(Side::Sell);
    assert_eq!(bids, vec![order(2, Side::Buy, 105, 2)]);
    assert!(asks.is_empty());
    let max_bid = bids.iter().map(|o| o.price).max();
    let min_ask = asks.iter().map(|o| o.price).min();
    if let (Some(b), Some(a)) = (max_bid, min_ask) {
        assert!(b < a);
    }
}

#[test]
fn quantity_is_conserved_scenario() {
    let mut book = OrderBook::new();
    book.submit_at(order(1, Side::Sell, 100, 4), 1);
    book.submit_at(order(2, Side::Sell, 101, 4), 1);
    book.submit_at(order(3, Side::Buy, 101, 10), 2);
    let asks: u64 = book.get_outstanding(Side::Sell).iter().map(|o| o.quantity).sum();
    let bids: u64 = book.get_outstanding(Side::Buy).iter().map(|o| o.quantity).sum();
    // 8 traded off the asks, 2 rested on the bids: 10 in all.
    assert_eq!(asks, 0);
    assert_eq!(bids, 2);
}

#[test]
fn cancel_undoes_a_resting_submit_scenario() {
    let mut book = OrderBook::new();
    book.submit_at(order(1, Side::Buy, 99, 5), 1);
    book.submit_at(order(2, Side::Sell, 102, 5), 1);
    let bids = book.get_outstanding(Side::Buy);
    let asks = book.get_outstanding(Side::Sell);
    book.submit_at(order(3, Side::Buy, 100, 7), 2);
    let events = book.cancel_at(3, 3);
    assert_eq!(events[1], Event::Cancelled { order_id: 3, timestamp: 3 });
    assert_eq!(book.get_outstanding(Side::Buy), bids);
    assert_eq!(book.get_outstanding(Side::Sell), asks);
}

#[test]
fn cancel_of_known_id_succeeds_even_with_duplicate_ids() {
    let mut book = OrderBook::new();
    book.submit_at(order(7, Side::Buy, 100, 1), 1);
    book.submit_at(order(7, Side::Buy, 99, 2), 2);
    // The index remembers the later one, at 99.
    let events = book.cancel_at(7, 3);
    assert_eq!(events[1], Event::Cancelled { order_id: 7, timestamp: 3 });
    assert_eq!(book.get_outstanding(Side::Buy), vec![order(7, Side::Buy, 100, 1)]);
    let events = book.cancel_at(7, 4);
    assert_eq!(
        events[1],
        Event::Rejected { order_id: 7, reason: String::from("Order not found"), timestamp: 4 }
    );
}

#[test]
fn trades_respect_limit_scenario() {
    let mut book = OrderBook::new();
    book.submit_at(order(1, Side::Buy, 104, 2), 1);
    book.submit_at(order(2, Side::Buy, 101, 2), 1);
    book.submit_at(order(3, Side::Buy, 99, 2), 1);
    let events = book.submit_at(order(4, Side::Sell, 100, 10), 2);
    let prices: Vec<u64> = events
        .iter()
        .filter_map(|e| match e {
            Event::Trade { price, .. } => Some(*price),
            _ => None,
        })
        .collect();
    // Each trade is at the resting price, never below the seller's limit.
    assert_eq!(prices, vec![104, 101]);
    assert_eq!(book.get_outstanding(Side::Sell), vec![order(4, Side::Sell, 100, 6)]);
}

#[test]
fn stamp_of_a_clock_reading() {
    assert_eq!(stamp_of_reading(Some(7)), 7);
    assert_eq!(stamp_of_reading(Some((1u128 << 64) + 5)), 5);
    assert_eq!(stamp_of_reading(None), 0);
}

#[test]
fn with_distinct_ids_cancel_succeeds_exactly_for_resting_orders() {
    let mut book = OrderBook::new();
    book.submit_at(order(1, Side::Sell, 100, 5), 1);
    book.submit_at(order(2, Side::Buy, 98, 5), 1);
    book.submit_at(order(3, Side::Buy, 100, 2), 2);
    // 1 rests with 3 left, 2 rests, 3 traded away whole.
    for (id, rests) in [(1u64, true), (2, true), (3, false), (4, false)] {
        let mut copy = OrderBook::new();
        copy.submit_at(order(1, Side::Sell, 100, 5), 1);
        copy.submit_at(order(2, Side::Buy, 98, 5), 1);
        copy.submit_at(order(3, Side::Buy, 100, 2), 2);
        let events = copy.cancel_at(id, 5);
        if rests {
            assert_eq!(events[1], Event::Cancelled { order_id: id, timestamp: 5 });
        } else {
            assert_eq!(
                events[1],
                Event::Rejected { order_id: id, reason: String::from("Order not found"), timestamp: 5 }
            );
        }
    }
    assert_eq!(book.get_outstanding(Side::Sell), vec![order(1, Side::Sell, 100, 3)]);
}
