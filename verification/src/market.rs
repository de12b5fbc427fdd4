use vstd::prelude::*;
use crate::matching::{submit_outcome, BookView};
use crate::order::{Event, Order};
use crate::orderbook::OrderBook;
use crate::statistics::Stats;

verus! {

/// The totals after recording `events` in order while each one fits, and
/// whether all of them did.
pub open spec fn record_all(stats: Stats, events: Seq<Event>) -> (Stats, bool)
    decreases events.len(),
{
    if events.len() == 0 {
        (stats, true)
    } else if stats.fits(events[0]) {
        record_all(stats.recorded(events[0]), events.drop_first())
    } else {
        (stats, false)
    }
}

/// The number of trades in `events`.
pub open spec fn trades_in(events: Seq<Event>) -> int
    decreases events.len(),
{
    if events.len() == 0 {
        0
    } else {
        (if events[0] is Trade { 1int } else { 0int }) + trades_in(events.drop_first())
    }
}

/// The quantity traded in `events`.
pub open spec fn volume_in(events: Seq<Event>) -> int
    decreases events.len(),
{
    if events.len() == 0 {
        0
    } else {
        (match events[0] {
            Event::Trade { qty, .. } => qty as int,
            _ => 0int,
        }) + volume_in(events.drop_first())
    }
}

/// The sum of price times quantity over the trades in `events`.
pub open spec fn notional_in(events: Seq<Event>) -> int
    decreases events.len(),
{
    if events.len() == 0 {
        0
    } else {
        (match events[0] {
            Event::Trade { price, qty, .. } => price * qty,
            _ => 0int,
        }) + notional_in(events.drop_first())
    }
}

proof fn lemma_sums_nonneg(events: Seq<Event>)
    ensures
        trades_in(events) >= 0,
        volume_in(events) >= 0,
        notional_in(events) >= 0,
    decreases events.len(),
{
    if events.len() > 0 {
        lemma_sums_nonneg(events.drop_first());
        if let Event::Trade { price, qty, .. } = events[0] {
            assert(price * qty >= 0) by (nonlinear_arith);
        }
    }
}

/// Recording a batch of events counts every trade in it: when all of them
/// are recorded, the count grows by the number of trades, the volume by the
/// quantity traded and the notional by the traded price times quantity. And
/// all of them are recorded whenever those grown totals fit in `u64`.
pub proof fn law_record_all_counts_every_trade(stats: Stats, events: Seq<Event>)
    ensures
        record_all(stats, events).1 ==> {
            let r = record_all(stats, events).0;
            &&& r.trade_count == stats.trade_count + trades_in(events)
            &&& r.total_volume == stats.total_volume + volume_in(events)
            &&& r.total_notional == stats.total_notional + notional_in(events)
        },
        (stats.trade_count + trades_in(events) <= u64::MAX && stats.total_volume + volume_in(events)
            <= u64::MAX && stats.total_notional + notional_in(events) <= u64::MAX) ==> record_all(
            stats,
            events,
        ).1,
    decreases events.len(),
{
    if events.len() > 0 {
        let e = events[0];
        let rest = events.drop_first();
        lemma_sums_nonneg(rest);
        law_record_all_counts_every_trade(stats.recorded(e), rest);
        if let Event::Trade { price, qty, .. } = e {
            assert(price * qty >= 0) by (nonlinear_arith);
        }
    }
}

/// The state of the market screen: the book, every event it has reported,
/// the trade totals, and whether the user asked to leave.
pub struct App {
    book: OrderBook,
    events: Vec<Event>,
    statistics: Stats,
    exit: bool,
}

impl App {
    /// The book.
    pub closed spec fn book_view(&self) -> BookView {
        self.book@
    }

    /// Every event reported so far, oldest first.
    pub closed spec fn log(&self) -> Seq<Event> {
        self.events@
    }

    /// The trade totals.
    pub closed spec fn stats(&self) -> Stats {
        self.statistics
    }

    /// Whether the user asked to leave.
    pub closed spec fn exiting(&self) -> bool {
        self.exit
    }

    /// An empty book, no events, zero totals.
    pub fn new() -> (app: Self)
        ensures
            app.book_view().bids.len() == 0,
            app.book_view().asks.len() == 0,
            app.book_view().index == Map::<u64, (crate::order::Side, u64)>::empty(),
            app.log() == Seq::<Event>::empty(),
            app.stats() == (Stats { total_volume: 0, trade_count: 0, total_notional: 0 }),
            !app.exiting(),
    {
        App { book: OrderBook::new(), events: Vec::new(), statistics: Stats::new(), exit: false }
    }

    /// Submits `order` to the book at the clock's time, records its events in
    /// the totals and appends them to the log. Returns `false` when a total
    /// would leave `u64`; the totals then stop at the last event that fit.
    pub fn handle_order(&mut self, order: Order) -> (ok: bool)
        ensures
            final(self).exiting() == old(self).exiting(),
            exists|t: u64|
                {
                    let outcome = #[trigger] submit_outcome(old(self).book_view(), order, t);
                    &&& final(self).book_view() == outcome.0
                    &&& final(self).log() == old(self).log() + outcome.1
                    &&& (final(self).stats(), ok) == record_all(old(self).stats(), outcome.1)
                    &&& ok ==> final(self).stats().trade_count == old(self).stats().trade_count
                        + trades_in(outcome.1)
                    &&& ok ==> final(self).stats().total_volume == old(self).stats().total_volume
                        + volume_in(outcome.1)
                    &&& ok ==> final(self).stats().total_notional
                        == old(self).stats().total_notional + notional_in(outcome.1)
                },
    {
        let mut outcome = self.book.submit(order);
        let ghost t = choose|t: u64|
            (self.book@, outcome@) == #[trigger] submit_outcome(old(self).book@, order, t);
        let ghost s0 = self.statistics;
        let mut ok = true;
        let mut i: usize = 0;
        assert(outcome@.skip(0) =~= outcome@);
        while i < outcome.len() && ok
            invariant
                i <= outcome.len(),
                (self.book@, outcome@) == submit_outcome(old(self).book@, order, t),
                self.events@ == old(self).events@,
                self.exit == old(self).exit,
                ok ==> record_all(s0, outcome@) == record_all(
                    self.statistics,
                    outcome@.skip(i as int),
                ),
                !ok ==> record_all(s0, outcome@) == (self.statistics, false),
            decreases outcome.len() - i,
        {
            assert(outcome@.skip(i as int).drop_first() =~= outcome@.skip(i + 1));
            assert(outcome@.skip(i as int)[0] == outcome@[i as int]);
            if self.statistics.can_record(&outcome[i]) {
                self.statistics.record_event(&outcome[i]);
            } else {
                ok = false;
            }
            i += 1;
        }
        proof {
            if ok {
                assert(outcome@.skip(i as int) =~= Seq::<Event>::empty());
            }
        }
        let ghost evs = outcome@;
        self.events.append(&mut outcome);
        let ghost outcome_t = submit_outcome(old(self).book_view(), order, t);
        assert(outcome_t.1 == evs);
        assert(self.book_view() == outcome_t.0);
        assert(self.log() == old(self).log() + outcome_t.1);
        assert((self.stats(), ok) == record_all(old(self).stats(), outcome_t.1));
        proof {
            law_record_all_counts_every_trade(old(self).stats(), outcome_t.1);
        }
        ok
    }

    /// Notes a key press: `q` asks to leave.
    pub fn handle_key(&mut self, key: char)
        ensures
            final(self).exiting() == (old(self).exiting() || key == 'q'),
            final(self).book_view() == old(self).book_view(),
            final(self).log() == old(self).log(),
            final(self).stats() == old(self).stats(),
    {
        if key == 'q' {
            self.exit = true;
        }
    }

    /// Whether the user asked to leave.
    pub fn should_exit(&self) -> (b: bool)
        ensures
            b == self.exiting(),
    {
        self.exit
    }

    /// The book.
    pub fn book(&self) -> (b: &OrderBook)
        ensures
            b@ == self.book_view(),
    {
        &self.book
    }

    /// Every event reported so far, oldest first.
    pub fn events(&self) -> (v: &Vec<Event>)
        ensures
            v@ == self.log(),
    {
        &self.events
    }

    /// The trade totals.
    pub fn statistics(&self) -> (s: &Stats)
        ensures
            *s == self.stats(),
    {
        &self.statistics
    }
}

} // verus!
