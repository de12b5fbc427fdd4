use vstd::prelude::*;
use crate::text::{decimal, push_decimal};

verus! {

/// The side of the market an order is on.
#[derive(Debug, Clone, Copy, PartialEq, Eq, Structural)]
pub enum Side {
    Buy,
    Sell,
}

/// How the sender asked the order to be handled. The book treats every
/// kind alike, as a limit order.
#[derive(Debug, Clone, Copy, PartialEq, Eq, Structural)]
pub enum TradeType {
    Limit,
    Market,
    Ioc,
}

/// An order: who sent it, on which side, at which limit price, for how much.
#[derive(Debug, Clone, Copy, PartialEq, Eq, Structural)]
pub struct Order {
    pub id: u64,
    pub side: Side,
    pub price: u64,
    pub quantity: u64,
    pub trade_type: TradeType,
}

/// What the book reports as it handles a request.
#[derive(Debug, Clone, PartialEq)]
pub enum Event {
    Accepted { order_id: u64, timestamp: u64 },
    Trade { buy_order_id: u64, sell_order_id: u64, price: u64, qty: u64, timestamp: u64 },
    Rested { order_id: u64, timestamp: u64 },
    Cancelled { order_id: u64, timestamp: u64 },
    Rejected { order_id: u64, reason: String, timestamp: u64 },
    RestingFulfilled { order_id: u64, timestamp: u64 },
    Discarded { order_id: u64, timestamp: u64, quantity: u64 },
}

/// The text that chrono's `format("%Y-%m-%d %H-%M:%S%.3f")` gives for the UTC
/// date and time `nanos` nanoseconds after the Unix epoch.
pub uninterp spec fn utc_stamp(nanos: u64) -> Seq<char>;

/// The UTC date and time `nanos` nanoseconds after the Unix epoch, as chrono
/// formats it with `"%Y-%m-%d %H-%M:%S%.3f"`. The contract claims only that
/// the text depends on `nanos` alone; what chrono writes is not restated.
#[verifier::external_body]
fn format_timestamp(nanos: u64) -> (text: String)
    ensures
        text@ == utc_stamp(nanos),
{
    let duration = std::time::Duration::from_nanos(nanos);
    let datetime: chrono::DateTime<chrono::Utc> = (std::time::UNIX_EPOCH + duration).into();
    datetime.format("%Y-%m-%d %H-%M:%S%.3f").to_string()
}

impl Event {
    /// The time stamped on the event.
    pub open spec fn stamp(self) -> u64 {
        match self {
            Event::Accepted { timestamp, .. } => timestamp,
            Event::Trade { timestamp, .. } => timestamp,
            Event::Rested { timestamp, .. } => timestamp,
            Event::Cancelled { timestamp, .. } => timestamp,
            Event::Rejected { timestamp, .. } => timestamp,
            Event::RestingFulfilled { timestamp, .. } => timestamp,
            Event::Discarded { timestamp, .. } => timestamp,
        }
    }

    /// The log line of the event, given the text of its time stamp.
    pub open spec fn log_line(self, stamp: Seq<char>) -> Seq<char> {
        let head = "["@ + stamp;
        match self {
            Event::Accepted { order_id, .. } => head + "] ACCEPT    order #"@ + decimal(
                order_id as nat,
            ),
            Event::Trade { buy_order_id, sell_order_id, price, qty, .. } => head
                + "] TRADE      "@ + decimal(qty as nat) + " @ "@ + decimal(price as nat)
                + " (Buy #"@ + decimal(buy_order_id as nat) + " / Sell #"@ + decimal(
                sell_order_id as nat,
            ) + ")"@,
            Event::Rested { order_id, .. } => head + "] REST    order #"@ + decimal(
                order_id as nat,
            ),
            Event::Cancelled { order_id, .. } => head + "] CANCELLED     order #"@ + decimal(
                order_id as nat,
            ),
            Event::Rejected { order_id, reason, .. } => head + "] REJECTED     order #"@
                + decimal(order_id as nat) + " ("@ + reason@ + ")"@,
            Event::RestingFulfilled { order_id, .. } => head + "] REST FULFILLED     order #"@
                + decimal(order_id as nat),
            Event::Discarded { order_id, quantity, .. } => head
                + "] REMAINING DISCARDED     order #"@ + decimal(order_id as nat) + " with "@
                + decimal(quantity as nat) + " units remaining"@,
        }
    }

    /// The log line of the event, with `stamp` as the text of its time stamp.
    pub fn log_line_with_stamp(&self, stamp: &str) -> (line: String)
        ensures
            line@ == self.log_line(stamp@),
    {
        let mut line = String::from_str("[");
        line.append(stamp);
        match self {
            Event::Accepted { order_id, .. } => {
                line.append("] ACCEPT    order #");
                push_decimal(&mut line, *order_id);
            },
            Event::Trade { buy_order_id, sell_order_id, price, qty, .. } => {
                line.append("] TRADE      ");
                push_decimal(&mut line, *qty);
                line.append(" @ ");
                push_decimal(&mut line, *price);
                line.append(" (Buy #");
                push_decimal(&mut line, *buy_order_id);
                line.append(" / Sell #");
                push_decimal(&mut line, *sell_order_id);
                line.append(")");
            },
            Event::Rested { order_id, .. } => {
                line.append("] REST    order #");
                push_decimal(&mut line, *order_id);
            },
            Event::Cancelled { order_id, .. } => {
                line.append("] CANCELLED     order #");
                push_decimal(&mut line, *order_id);
            },
            Event::Rejected { order_id, reason, .. } => {
                line.append("] REJECTED     order #");
                push_decimal(&mut line, *order_id);
                line.append(" (");
                line.append(reason.as_str());
                line.append(")");
            },
            Event::RestingFulfilled { order_id, .. } => {
                line.append("] REST FULFILLED     order #");
                push_decimal(&mut line, *order_id);
            },
            Event::Discarded { order_id, quantity, .. } => {
                line.append("] REMAINING DISCARDED     order #");
                push_decimal(&mut line, *order_id);
                line.append(" with ");
                push_decimal(&mut line, *quantity);
                line.append(" units remaining");
            },
        }
        line
    }

    /// The time stamped on the event.
    pub fn timestamp(&self) -> (t: u64)
        ensures
            t == self.stamp(),
    {
        match self {
            Event::Accepted { timestamp, .. } => *timestamp,
            Event::Trade { timestamp, .. } => *timestamp,
            Event::Rested { timestamp, .. } => *timestamp,
            Event::Cancelled { timestamp, .. } => *timestamp,
            Event::Rejected { timestamp, .. } => *timestamp,
            Event::RestingFulfilled { timestamp, .. } => *timestamp,
            Event::Discarded { timestamp, .. } => *timestamp,
        }
    }

    /// The event as a line of the trade log: its UTC time stamp in brackets,
    /// then what happened.
    pub fn to_log_line(&self) -> (line: String)
        ensures
            line@ == self.log_line(utc_stamp(self.stamp())),
    {
        let stamp = format_timestamp(self.timestamp());
        self.log_line_with_stamp(stamp.as_str())
    }
}

} // verus!
