use orderbook::order::Event;
use orderbook::text::push_decimal;

#[test]
fn decimal_numerals() {
    let mut s = String::new();
    push_decimal(&mut s, 0);
    assert_eq!(s, "0");
    let mut s = String::from("x");
    push_decimal(&mut s, 1234567890);
    assert_eq!(s, "x1234567890");
    let mut s = String::new();
    push_decimal(&mut s, u64::MAX);
    assert_eq!(s, "18446744073709551615");
}

#[test]
fn log_line_at_the_epoch() {
    let e = Event::Accepted { order_id: 1, timestamp: 0 };
    assert_eq!(e.to_log_line(), "[1970-01-01 00-00:00.000] ACCEPT    order #1");
}

#[test]
fn log_line_stamp_is_utc_with_milliseconds() {
    let e = Event::Rested { order_id: 12, timestamp: 1_700_000_000_123_456_789 };
    assert_eq!(e.to_log_line(), "[2023-11-14 22-13:20.123] REST    order #12");
}

#[test]
fn log_line_of_each_event() {
    let stamp = "T";
    assert_eq!(
        Event::Accepted { order_id: 3, timestamp: 9 }.log_line_with_stamp(stamp),
        "[T] ACCEPT    order #3"
    );
    assert_eq!(
        Event::Trade { buy_order_id: 4, sell_order_id: 5, price: 101, qty: 7, timestamp: 9 }
            .log_line_with_stamp(stamp),
        "[T] TRADE      7 @ 101 (Buy #4 / Sell #5)"
    );
    assert_eq!(
        Event::Rested { order_id: 3, timestamp: 9 }.log_line_with_stamp(stamp),
        "[T] REST    order #3"
    );
    assert_eq!(
        Event::Cancelled { order_id: 3, timestamp: 9 }.log_line_with_stamp(stamp),
        "[T] CANCELLED     order #3"
    );
    assert_eq!(
        Event::Rejected { order_id: 3, reason: String::from("Order not found"), timestamp: 9 }
            .log_line_with_stamp(stamp),
        "[T] REJECTED     order #3 (Order not found)"
    );
    assert_eq!(
        Event::RestingFulfilled { order_id: 3, timestamp: 9 }.log_line_with_stamp(stamp),
        "[T] REST FULFILLED     order #3"
    );
    assert_eq!(
        Event::Discarded { order_id: 3, timestamp: 9, quantity: 40 }.log_line_with_stamp(stamp),
        "[T] REMAINING DISCARDED     order #3 with 40 units remaining"
    );
}

#[test]
fn timestamp_of_each_event() {
    assert_eq!(Event::Discarded { order_id: 3, timestamp: 9, quantity: 40 }.timestamp(), 9);
    assert_eq!(
        Event::Trade { buy_order_id: 4, sell_order_id: 5, price: 101, qty: 7, timestamp: 11 }
            .timestamp(),
        11
    );
}
