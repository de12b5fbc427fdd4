use orderbook::feed::trade_type_for_roll;
use orderbook::market::App;
use orderbook::order::{Event, Order, Side, TradeType};
use orderbook::statistics::Stats;
use orderbook::user::User;

fn order(id: u64, side: Side, price: u64, quantity: u64) -> Order {
    Order { id, side, price, quantity, trade_type: TradeType::Limit }
}

#[test]
fn stats_count_trades_only() {
    let mut s = Stats::new();
    s.record_event(&Event::Accepted { order_id: 1, timestamp: 0 });
    assert_eq!((s.total_volume, s.trade_count, s.total_notional), (0, 0, 0));
    s.record_event(&Event::Trade { buy_order_id: 1, sell_order_id: 2, price: 100, qty: 3, timestamp: 0 });
    s.record_event(&Event::Trade { buy_order_id: 1, sell_order_id: 4, price: 102, qty: 2, timestamp: 0 });
    assert_eq!(s.total_volume, 5);
    assert_eq!(s.trade_count, 2);
    assert_eq!(s.total_notional, 504);
}

#[test]
fn stats_refuse_an_overflowing_trade() {
    let s = Stats { total_volume: 0, trade_count: 0, total_notional: 0 };
    let huge = Event::Trade { buy_order_id: 1, sell_order_id: 2, price: u64::MAX, qty: 2, timestamp: 0 };
    assert!(!s.can_record(&huge));
    let full = Stats { total_volume: u64::MAX, trade_count: 0, total_notional: 0 };
    let small = Event::Trade { buy_order_id: 1, sell_order_id: 2, price: 1, qty: 1, timestamp: 0 };
    assert!(!full.can_record(&small));
    assert!(s.can_record(&small));
    assert!(full.can_record(&Event::Rested { order_id: 1, timestamp: 0 }));
}

#[test]
fn user_moves_first_traded_order_to_matched() {
    let mut u = User::new(7);
    assert_eq!(u.id, 7);
    u.record_order(order(1, Side::Buy, 100, 1));
    u.record_order(order(2, Side::Buy, 100, 1));
    u.record_order(order(3, Side::Buy, 100, 1));
    u.check_event(Event::Rested { order_id: 1, timestamp: 0 });
    assert!(u.matched_orders().is_empty());
    u.check_event(Event::Trade { buy_order_id: 9, sell_order_id: 1, price: 100, qty: 1, timestamp: 0 });
    assert_eq!(u.matched_orders(), &vec![order(1, Side::Buy, 100, 1)]);
    // swap_remove: the last unmatched order takes the freed place.
    assert_eq!(u.unmatched_orders(), &vec![order(3, Side::Buy, 100, 1), order(2, Side::Buy, 100, 1)]);
    u.check_event(Event::Trade { buy_order_id: 42, sell_order_id: 43, price: 100, qty: 1, timestamp: 0 });
    assert_eq!(u.unmatched_orders().len(), 2);
}

#[test]
fn app_feeds_book_log_and_totals() {
    let mut app = App::new();
    assert!(app.handle_order(order(1, Side::Sell, 100, 5)));
    assert!(app.handle_order(order(2, Side::Buy, 100, 3)));
    assert_eq!(app.events().len(), 4);
    assert_eq!(app.statistics().trade_count, 1);
    // The trade reports the resting order's quantity before the fill.
    assert_eq!(app.statistics().total_volume, 5);
    assert_eq!(app.statistics().total_notional, 500);
    assert_eq!(app.book().get_outstanding(Side::Sell), vec![order(1, Side::Sell, 100, 2)]);
}

#[test]
fn app_reports_overflowing_totals() {
    let mut app = App::new();
    assert!(app.handle_order(order(1, Side::Sell, u64::MAX, 5)));
    assert!(!app.handle_order(order(2, Side::Buy, u64::MAX, 3)));
    assert_eq!(app.statistics().trade_count, 0);
}

#[test]
fn app_leaves_on_q_only() {
    let mut app = App::new();
    app.handle_key('x');
    assert!(!app.should_exit());
    app.handle_key('q');
    assert!(app.should_exit());
    app.handle_key('x');
    assert!(app.should_exit());
}

#[test]
fn trade_type_rolls() {
    assert_eq!(trade_type_for_roll(1), TradeType::Limit);
    assert_eq!(trade_type_for_roll(79), TradeType::Limit);
    assert_eq!(trade_type_for_roll(80), TradeType::Market);
    assert_eq!(trade_type_for_roll(94), TradeType::Market);
    assert_eq!(trade_type_for_roll(95), TradeType::Ioc);
    assert_eq!(trade_type_for_roll(99), TradeType::Ioc);
}
