use vstd::prelude::*;
use std::collections::{BTreeMap, HashMap};
use crate::keys::{priority_keys, ranked, ranks, lemma_ranked};
use crate::laws::{
    law_cancel_keeps_book_uncrossed, law_cancel_keeps_index_truthful,
    law_submit_keeps_book_uncrossed, law_submit_keeps_index_truthful, lemma_rest_position,
    law_outstanding_lists_every_resting_order, lists_in_price_time_order,
};
use crate::matching::{
    add_resting, ahead, book_wf, cancel_outcome, cancel_reply, crosses, fill_queue, first_with_id,
    flatten, flatten_reversed, index_ok, lemma_add_resting_at, lemma_cancel_wf,
    lemma_queue_total_concat, lemma_queue_total_nonneg, lemma_queue_total_single, lemma_submit_wf,
    level_at, outstanding, queue_total, remove_first, rest_position, side_ladder, submit_outcome,
    sweep, uncrossed, BookView, Ladder,
};
use crate::order::{Event, Order, Side};

verus! {

broadcast use {vstd::std_specs::hash::group_hash_axioms, vstd::std_specs::btree::group_btree_axioms};

/// The ladder of the book of `side` held in `m` (price to the orders resting
/// there, oldest first): its prices in priority order, each with its orders.
spec fn ladder_of(side: Side, m: Map<u64, Vec<Order>>) -> Ladder {
    let ks = ranked(side, m.dom());
    Seq::new(ks.len(), |i: int| (ks[i], m[ks[i]]@))
}

/// `queue` met by an incoming order from `taker_id` with `remaining` to trade:
/// returns what is left of the order and the orders that stay in the queue.
fn fill_queue_exec(
    queue: &Vec<Order>,
    remaining: u64,
    index: &mut HashMap<u64, (Side, u64)>,
    taker_id: u64,
    ts: u64,
    events: &mut Vec<Event>,
) -> (res: (u64, Vec<Order>))
    ensures
        ({
            let f = fill_queue(queue@, remaining, old(index)@, taker_id, ts);
            &&& res.0 == f.remaining
            &&& final(index)@ == f.index
            &&& res.1@ == f.kept
            &&& final(events)@ == old(events)@ + f.events
        }),
{
    let ghost f0 = fill_queue(queue@, remaining, index@, taker_id, ts);
    let ghost events0 = events@;
    let mut qty = remaining;
    let mut kept: Vec<Order> = Vec::new();
    let mut j: usize = 0;
    assert(queue@.skip(0) =~= queue@);
    assert(kept@ + f0.kept =~= f0.kept);
    while j < queue.len()
        invariant
            j <= queue.len(),
            ({
                let f = fill_queue(queue@.skip(j as int), qty, index@, taker_id, ts);
                &&& f0.remaining == f.remaining
                &&& f0.index == f.index
                &&& f0.kept == kept@ + f.kept
                &&& events0 + f0.events == events@ + f.events
            }),
        decreases queue.len() - j,
    {
        let r = queue[j];
        proof {
            assert(queue@.skip(j as int)[0] == r);
            assert(queue@.skip(j as int).drop_first() =~= queue@.skip(j + 1));
        }
        if qty == 0 {
            kept.push(r);
            proof {
                assert(queue@.skip(j as int) =~= seq![r] + queue@.skip(j + 1));
            }
        } else {
            let fill = if qty <= r.quantity { qty } else { r.quantity };
            let left = r.quantity - fill;
            events.push(
                Event::Trade {
                    buy_order_id: taker_id,
                    sell_order_id: r.id,
                    price: r.price,
                    qty: r.quantity,
                    timestamp: ts,
                },
            );
            qty = qty - fill;
            if left == 0 {
                let _ = index.remove(&r.id);
                events.push(Event::RestingFulfilled { order_id: r.id, timestamp: ts });
            } else {
                kept.push(Order { quantity: left, ..r });
            }
        }
        j += 1;
    }
    proof {
        assert(queue@.skip(j as int) =~= Seq::<Order>::empty());
    }
    (qty, kept)
}

fn crosses_exec(taker: Side, limit: u64, price: u64) -> (r: bool)
    ensures
        r == crosses(taker, limit, price),
{
    match taker {
        Side::Buy => price <= limit,
        Side::Sell => price >= limit,
    }
}

/// The incoming order `taker` walks `levels`, the book of `book_side` on the
/// other side from it, best price first; returns what is left of it.
fn sweep_exec(
    levels: &mut BTreeMap<u64, Vec<Order>>,
    book_side: Side,
    taker: Order,
    index: &mut HashMap<u64, (Side, u64)>,
    ts: u64,
    events: &mut Vec<Event>,
) -> (remaining: u64)
    ensures
        final(levels)@.dom() == old(levels)@.dom(),
        ({
            let s = sweep(ladder_of(book_side, old(levels)@), taker, taker.quantity, old(index)@, ts);
            &&& remaining == s.remaining
            &&& final(index)@ == s.index
            &&& ladder_of(book_side, final(levels)@) == s.levels
            &&& final(events)@ == old(events)@ + s.events
        }),
{
    let ks = priority_keys(levels, book_side);
    let ghost dom0 = levels@.dom();
    let ghost m0 = levels@;
    let ghost l0 = ladder_of(book_side, m0);
    let ghost s0 = sweep(l0, taker, taker.quantity, index@, ts);
    let ghost events0 = events@;
    let mut qty = taker.quantity;
    let mut i: usize = 0;
    assert(l0.skip(0) =~= l0);
    assert(ladder_of(book_side, levels@).subrange(0, 0) + s0.levels =~= s0.levels);
    while i < ks.len() && qty > 0 && crosses_exec(taker.side, taker.price, ks[i])
        invariant
            i <= ks.len(),
            ks@ == ranked(book_side, dom0),
            ranks(book_side, dom0, ks@),
            levels@.dom() == dom0,
            l0 == ladder_of(book_side, m0),
            m0.dom() == dom0,
            forall|k: int| i <= k < ks@.len() ==> levels@[#[trigger] ks@[k]] == m0[ks@[k]],
            ({
                let s = sweep(l0.skip(i as int), taker, qty, index@, ts);
                &&& s0.remaining == s.remaining
                &&& s0.index == s.index
                &&& s0.levels == ladder_of(book_side, levels@).subrange(0, i as int) + s.levels
                &&& events0 + s0.events == events@ + s.events
            }),
        decreases ks.len() - i,
    {
        let ghost before = levels@;
        let key = ks[i];
        proof {
            assert(ks@.contains(key));
            assert(dom0.contains(key));
        }
        let q = levels.remove(&key).unwrap();
        let (q2, kept) = fill_queue_exec(&q, qty, index, taker.id, ts, events);
        levels.insert(key, kept);
        qty = q2;
        proof {
            assert(levels@.dom() =~= dom0);
            assert(l0[i as int] == (key, q@));
            assert(l0.skip(i as int)[0] == l0[i as int]);
            assert(l0.skip(i as int).drop_first() =~= l0.skip(i + 1));
            assert forall|k: int| i + 1 <= k < ks@.len() implies levels@[#[trigger] ks@[k]] == m0[ks@[k]] by {
                assert(ahead(book_side, ks@[i as int], ks@[k]));
            }
            assert forall|k: int| 0 <= k < i implies levels@[#[trigger] ks@[k]] == before[ks@[k]] by {
                assert(ahead(book_side, ks@[k], ks@[i as int]));
            }
            assert(ladder_of(book_side, levels@).subrange(0, i + 1) =~= ladder_of(
                book_side,
                before,
            ).subrange(0, i as int).push((key, kept@)));
        }
        i += 1;
    }
    proof {
        if i < ks@.len() {
            assert(l0.skip(i as int)[0] == l0[i as int]);
        }
        let s = sweep(l0.skip(i as int), taker, qty, index@, ts);
        assert(s.levels == l0.skip(i as int));
        assert(s.events =~= Seq::<Event>::empty());
        assert(events@ + s.events =~= events@);
        assert(ladder_of(book_side, levels@) =~= ladder_of(book_side, levels@).subrange(0, i as int)
            + l0.skip(i as int));
    }
    qty
}

/// Queues `o` last at its price in `levels`, the book of its own side,
/// opening a level there if there is none.
fn add_resting_exec(levels: &mut BTreeMap<u64, Vec<Order>>, o: Order)
    ensures
        ladder_of(o.side, final(levels)@) == add_resting(ladder_of(o.side, old(levels)@), o),
{
    let ks = priority_keys(levels, o.side);
    let ghost side = o.side;
    let ghost m0 = levels@;
    let ghost l0 = ladder_of(side, m0);
    let ghost k = rest_position(l0, o);
    proof {
        lemma_rest_position(l0, o);
        lemma_add_resting_at(l0, o, k);
    }
    if levels.contains_key(&o.price) {
        let mut q = levels.remove(&o.price).unwrap();
        q.push(o);
        levels.insert(o.price, q);
        proof {
            assert(ks@.to_set().contains(o.price));
            let j = choose|j: int| 0 <= j < ks@.len() && ks@[j] == o.price;
            if j < k {
                assert(ahead(side, l0[j].0, o.price));
            } else if j > k {
                assert(ahead(side, ks@[k], ks@[j]));
            }
            assert(j == k);
            assert(levels@.dom() =~= m0.dom());
            assert forall|a: int| 0 <= a < ks@.len() && a != k implies levels@[#[trigger] ks@[a]]
                == m0[ks@[a]] by {
                if a < k {
                    assert(ahead(side, ks@[a], ks@[k]));
                } else {
                    assert(ahead(side, ks@[k], ks@[a]));
                }
            }
            assert(ladder_of(side, levels@) =~= l0.subrange(0, k) + (seq![
                (o.price, l0[k].1.push(o)),
            ] + l0.skip(k + 1)));
        }
    } else {
        let mut q: Vec<Order> = Vec::new();
        q.push(o);
        levels.insert(o.price, q);
        proof {
            let p = o.price;
            let ks2 = ks@.subrange(0, k) + (seq![p] + ks@.skip(k));
            assert(!ks@.to_set().contains(p));
            assert(!ks@.contains(p));
            assert forall|y: u64| ks2.contains(y) <==> levels@.dom().contains(y) by {
                if ks2.contains(y) {
                    let a = choose|a: int| 0 <= a < ks2.len() && ks2[a] == y;
                    if a < k {
                        assert(ks@[a] == y);
                        assert(ks@.contains(y));
                    } else if a > k {
                        assert(ks@[a - 1] == y);
                        assert(ks@.contains(y));
                    }
                }
                if levels@.dom().contains(y) && y != p {
                    assert(ks@.to_set().contains(y));
                    let a = choose|a: int| 0 <= a < ks@.len() && ks@[a] == y;
                    if a < k {
                        assert(ks2[a] == y);
                    } else {
                        assert(ks2[a + 1] == y);
                    }
                    assert(ks2.contains(y));
                }
                if y == p {
                    assert(ks2[k] == p);
                    assert(ks2.contains(y));
                }
            }
            assert(ks2.to_set() =~= levels@.dom());
            if k < ks@.len() {
                assert(l0[k].0 == ks@[k]);
                assert(ahead(side, p, ks@[k]));
            }
            assert forall|a: int, b: int| 0 <= a < b < ks2.len() implies ahead(
                side,
                #[trigger] ks2[a],
                #[trigger] ks2[b],
            ) by {
                if b < k {
                    assert(ahead(side, ks@[a], ks@[b]));
                } else if b == k {
                    assert(l0[a].0 == ks@[a]);
                    assert(ahead(side, l0[a].0, p));
                } else if a < k {
                    assert(ahead(side, ks@[a], ks@[b - 1]));
                } else if a == k {
                    if b - 1 > k {
                        assert(ahead(side, ks@[k], ks@[b - 1]));
                    }
                } else {
                    assert(ahead(side, ks@[a - 1], ks@[b - 1]));
                }
            }
            lemma_ranked(side, levels@.dom(), ks2);
            assert forall|a: int| 0 <= a < ks@.len() implies levels@[#[trigger] ks@[a]] == m0[ks@[a]] by {
                assert(ks@.contains(ks@[a]));
            }
            assert(ladder_of(side, levels@) =~= l0.subrange(0, k) + (seq![(p, seq![o])] + l0.skip(
                k,
            )));
        }
    }
}

/// The position of the oldest order with id `id` in `queue`, if any.
fn find_first_with_id(queue: &Vec<Order>, id: u64) -> (j: Option<usize>)
    ensures
        match j {
            Some(j) => first_with_id(queue@, id, j as int),
            None => forall|k: int| 0 <= k < queue@.len() ==> (#[trigger] queue@[k]).id != id,
        },
{
    let mut j: usize = 0;
    while j < queue.len()
        invariant
            j <= queue.len(),
            forall|k: int| 0 <= k < j ==> (#[trigger] queue@[k]).id != id,
        decreases queue.len() - j,
    {
        if queue[j].id == id {
            return Some(j);
        }
        j += 1;
    }
    None
}

/// Takes the oldest order with id `id` out of the level at `price` of
/// `levels`, the book of `side`; tells whether there was one.
fn remove_first_exec(levels: &mut BTreeMap<u64, Vec<Order>>, side: Side, price: u64, id: u64) -> (found: bool)
    ensures
        match remove_first(ladder_of(side, old(levels)@), price, id) {
            Some(ladder) => found && ladder_of(side, final(levels)@) == ladder,
            None => !found && final(levels)@ == old(levels)@,
        },
{
    let ks = priority_keys(levels, side);
    let ghost m0 = levels@;
    let ghost l0 = ladder_of(side, m0);
    let j_opt = match levels.get(&price) {
        Some(q) => find_first_with_id(q, id),
        None => {
            proof {
                if exists|i: int| level_at(l0, price, i) {
                    let i = choose|i: int| level_at(l0, price, i);
                    assert(ks@.contains(ks@[i]));
                }
            }
            return false;
        },
    };
    proof {
        assert(ks@.to_set().contains(price));
    }
    let ghost i = choose|i: int| 0 <= i < ks@.len() && ks@[i] == price;
    proof {
        assert(level_at(l0, price, i));
        let ci = choose|c: int| level_at(l0, price, c);
        if ci < i {
            assert(ahead(side, ks@[ci], ks@[i]));
        } else if ci > i {
            assert(ahead(side, ks@[i], ks@[ci]));
        }
        assert(ci == i);
    }
    let ghost queue = l0[i].1;
    match j_opt {
        None => {
            proof {
                if exists|j: int| first_with_id(queue, id, j) {
                    let j = choose|j: int| first_with_id(queue, id, j);
                    assert(queue[j].id == id);
                }
            }
            false
        },
        Some(j) => {
            proof {
                let cj = choose|c: int| first_with_id(queue, id, c);
                assert(cj == j);
            }
            let mut q = levels.remove(&price).unwrap();
            let _ = q.remove(j);
            levels.insert(price, q);
            proof {
                assert(levels@.dom() =~= m0.dom());
                assert forall|a: int| 0 <= a < ks@.len() && a != i implies levels@[#[trigger] ks@[a]]
                    == m0[ks@[a]] by {
                    if a < i {
                        assert(ahead(side, ks@[a], ks@[i]));
                    } else {
                        assert(ahead(side, ks@[i], ks@[a]));
                    }
                }
                assert(ladder_of(side, levels@) =~= l0.update(i, (price, queue.remove(j as int))));
            }
            true
        },
    }
}

/// The system clock's reading type, carried between the clock's calls.
#[verifier::external_type_specification]
#[verifier::external_body]
pub struct ExSystemTime(std::time::SystemTime);

/// `SystemTime::now`: the system clock's current reading. Nothing is claimed
/// of it.
#[verifier::external_body]
fn clock_now() -> std::time::SystemTime {
    std::time::SystemTime::now()
}

/// `SystemTime::duration_since(UNIX_EPOCH)`: how long after the Unix epoch
/// the reading `t` lies, or `None` for a reading before the epoch. Nothing is
/// claimed of the duration.
#[verifier::external_body]
fn since_unix_epoch(t: &std::time::SystemTime) -> Option<std::time::Duration> {
    t.duration_since(std::time::UNIX_EPOCH).ok()
}

/// `Duration::as_nanos`: the whole nanoseconds in `d`. Nothing is claimed of
/// the count.
#[verifier::external_body]
fn duration_nanos(d: &std::time::Duration) -> u128 {
    d.as_nanos()
}

/// The time stamp for a clock reading: `reading` is the whole nanoseconds
/// from the Unix epoch to the reading, or `None` for a clock that reads
/// before the epoch. The stamp is the count's low 64 bits, and 0 for a clock
/// before the epoch.
pub open spec fn stamp_for(reading: Option<u128>) -> u64 {
    match reading {
        Some(n) => (n % 0x1_0000_0000_0000_0000) as u64,
        None => 0,
    }
}

/// The time stamp for a clock reading (see `stamp_for`).
pub fn stamp_of_reading(reading: Option<u128>) -> (t: u64)
    ensures
        t == stamp_for(reading),
{
    match reading {
        Some(n) => (n % 0x1_0000_0000_0000_0000) as u64,
        None => 0,
    }
}

/// The current time stamp: the system clock's reading in nanoseconds since
/// the Unix epoch, cut to its low 64 bits, or 0 for a clock that reads before
/// the epoch (see `stamp_for`). Which reading comes back depends on the clock
/// alone; the stamp is `stamp_for` of some reading.
pub fn now_ts() -> (t: u64)
    ensures
        exists|reading: Option<u128>| t == #[trigger] stamp_for(reading),
{
    let reading = match since_unix_epoch(&clock_now()) {
        Some(d) => Some(duration_nanos(&d)),
        None => None,
    };
    stamp_of_reading(reading)
}

/// Copies `orders` to the end of `out`.
fn append_orders(out: &mut Vec<Order>, orders: &Vec<Order>)
    ensures
        final(out)@ == old(out)@ + orders@,
{
    let mut j: usize = 0;
    while j < orders.len()
        invariant
            j <= orders.len(),
            out@ == old(out)@ + orders@.subrange(0, j as int),
        decreases orders.len() - j,
    {
        out.push(orders[j]);
        assert(orders@.subrange(0, j + 1) =~= orders@.subrange(0, j as int).push(orders@[j as int]));
        j += 1;
    }
    assert(orders@.subrange(0, orders.len() as int) =~= orders@);
}

/// A limit order book: resting bids and asks by price, oldest first at each
/// price, and an index from order id to where the order was rested.
pub struct OrderBook {
    bids: BTreeMap<u64, Vec<Order>>,
    asks: BTreeMap<u64, Vec<Order>>,
    order_index: HashMap<u64, (Side, u64)>,
}

impl View for OrderBook {
    type V = BookView;

    closed spec fn view(&self) -> BookView {
        BookView {
            bids: ladder_of(Side::Buy, self.bids@),
            asks: ladder_of(Side::Sell, self.asks@),
            index: self.order_index@,
        }
    }
}

impl OrderBook {
    /// The book is in price priority on both sides, every resting order may
    /// rest where it is, the book is not crossed, and every id in the index
    /// leads to a resting order with that id.
    pub open spec fn wf(&self) -> bool {
        &&& book_wf(self@)
        &&& uncrossed(self@)
        &&& index_ok(self@)
    }

    /// Every book is well formed (see `wf`).
    #[verifier::type_invariant]
    spec fn always_wf(self) -> bool {
        self.wf()
    }

    /// An empty book.
    pub fn new() -> (book: Self)
        ensures
            book.wf(),
            book@.bids == Seq::<(u64, Seq<Order>)>::empty(),
            book@.asks == Seq::<(u64, Seq<Order>)>::empty(),
            book@.index == Map::<u64, (Side, u64)>::empty(),
    {
        let bids: BTreeMap<u64, Vec<Order>> = BTreeMap::new();
        let asks: BTreeMap<u64, Vec<Order>> = BTreeMap::new();
        proof {
            assert(Seq::<u64>::empty().to_set() =~= bids@.dom());
            lemma_ranked(Side::Buy, bids@.dom(), Seq::<u64>::empty());
            lemma_ranked(Side::Sell, asks@.dom(), Seq::<u64>::empty());
            assert(ladder_of(Side::Buy, bids@) =~= Seq::<(u64, Seq<Order>)>::empty());
            assert(ladder_of(Side::Sell, asks@) =~= Seq::<(u64, Seq<Order>)>::empty());
        }
        OrderBook { bids, asks, order_index: HashMap::new() }
    }

    /// Submits `order` with every event stamped `time`: it is accepted, trades
    /// against the opposite side from the best price on while it crosses, and
    /// rests with what is left, if anything (see `submit_outcome`).
    pub fn submit_at(&mut self, order: Order, time: u64) -> (events: Vec<Event>)
        ensures
            final(self).wf(),
            (final(self)@, events@) == submit_outcome(old(self)@, order, time),
    {
        proof {
            use_type_invariant(&*self);
        }
        let mut book = OrderBook::new();
        std::mem::swap(self, &mut book);
        let OrderBook { mut bids, mut asks, mut order_index } = book;
        let mut events: Vec<Event> = Vec::new();
        events.push(Event::Accepted { order_id: order.id, timestamp: time });
        let remaining = match order.side {
            Side::Buy => sweep_exec(&mut asks, Side::Sell, order, &mut order_index, time, &mut events),
            Side::Sell => sweep_exec(&mut bids, Side::Buy, order, &mut order_index, time, &mut events),
        };
        if remaining > 0 {
            let _ = order_index.insert(order.id, (order.side, order.price));
            events.push(Event::Rested { order_id: order.id, timestamp: time });
            let resting = Order { quantity: remaining, ..order };
            match order.side {
                Side::Buy => add_resting_exec(&mut bids, resting),
                Side::Sell => add_resting_exec(&mut asks, resting),
            }
        }
        proof {
            lemma_submit_wf(old(self)@, order, time);
            law_submit_keeps_book_uncrossed(old(self)@, order, time);
            law_submit_keeps_index_truthful(old(self)@, order, time);
        }
        *self = OrderBook { bids, asks, order_index };
        events
    }

    /// Handles a request to cancel the order `id`, every event stamped
    /// `time`: the request is accepted, then either the order leaves the book
    /// and is reported cancelled, or the request is rejected with the reason
    /// (see `cancel_outcome` and `cancel_reply`).
    pub fn cancel_at(&mut self, id: u64, time: u64) -> (events: Vec<Event>)
        ensures
            final(self).wf(),
            final(self)@ == cancel_outcome(old(self)@, id).0,
            events@.len() == 2,
            events@[0] == (Event::Accepted { order_id: id, timestamp: time }),
            cancel_reply(events@[1], id, time, cancel_outcome(old(self)@, id).1),
    {
        proof {
            use_type_invariant(&*self);
            lemma_cancel_wf(self@, id);
            law_cancel_keeps_book_uncrossed(self@, id);
            law_cancel_keeps_index_truthful(self@, id);
        }
        let mut book = OrderBook::new();
        std::mem::swap(self, &mut book);
        let OrderBook { mut bids, mut asks, mut order_index } = book;
        let mut events: Vec<Event> = Vec::new();
        events.push(Event::Accepted { order_id: id, timestamp: time });
        let found_at = match order_index.get(&id) {
            Some(value) => Some(*value),
            None => None,
        };
        match found_at {
            Some(value) => {
                let side = value.0;
                let price = value.1;
                let found = match side {
                    Side::Buy => remove_first_exec(&mut bids, side, price, id),
                    Side::Sell => remove_first_exec(&mut asks, side, price, id),
                };
                if found {
                    let _ = order_index.remove(&id);
                    events.push(Event::Cancelled { order_id: id, timestamp: time });
                } else {
                    events.push(
                        Event::Rejected {
                            order_id: id,
                            reason: String::from_str("Matching trade not found"),
                            timestamp: time,
                        },
                    );
                }
            },
            None => {
                events.push(
                    Event::Rejected {
                        order_id: id,
                        reason: String::from_str("Order not found"),
                        timestamp: time,
                    },
                );
            },
        }
        *self = OrderBook { bids, asks, order_index };
        events
    }

    /// Submits `order`, every event stamped with the clock's time once read
    /// (see `submit_at`).
    pub fn submit(&mut self, order: Order) -> (events: Vec<Event>)
        ensures
            final(self).wf(),
            exists|t: u64| (final(self)@, events@) == #[trigger] submit_outcome(old(self)@, order, t),
    {
        let time = now_ts();
        let events = self.submit_at(order, time);
        assert((self@, events@) == submit_outcome(old(self)@, order, time));
        events
    }

    /// Handles a request to cancel the order `id`, every event stamped with
    /// the clock's time once read (see `cancel_at`).
    pub fn cancel_trade(&mut self, id: u64) -> (events: Vec<Event>)
        ensures
            final(self).wf(),
            final(self)@ == cancel_outcome(old(self)@, id).0,
            events@.len() == 2,
            exists|t: u64|
                events@[0] == (Event::Accepted { order_id: id, timestamp: t }) && #[trigger] cancel_reply(
                    events@[1],
                    id,
                    t,
                    cancel_outcome(old(self)@, id).1,
                ),
    {
        let time = now_ts();
        self.cancel_at(id, time)
    }

    /// The orders resting on `side`, by ascending price and oldest first at
    /// each price.
    pub fn get_outstanding(&self, side: Side) -> (orders: Vec<Order>)
        ensures
            orders@ == outstanding(self@, side),
            lists_in_price_time_order(orders@, side_ladder(self@, side)),
    {
        proof {
            use_type_invariant(self);
            law_outstanding_lists_every_resting_order(self@, side);
        }
        let mut out: Vec<Order> = Vec::new();
        match side {
            Side::Sell => {
                let ks = priority_keys(&self.asks, Side::Sell);
                let ghost l = ladder_of(Side::Sell, self.asks@);
                let mut i: usize = 0;
                assert(l.subrange(0, 0) =~= Seq::<(u64, Seq<Order>)>::empty());
                while i < ks.len()
                    invariant
                        i <= ks.len(),
                        ks@ == ranked(Side::Sell, self.asks@.dom()),
                        ranks(Side::Sell, self.asks@.dom(), ks@),
                        l == ladder_of(Side::Sell, self.asks@),
                        out@ == flatten(l.subrange(0, i as int)),
                    decreases ks.len() - i,
                {
                    proof {
                        assert(ks@.contains(ks@[i as int]));
                    }
                    let q = self.asks.get(&ks[i]).unwrap();
                    append_orders(&mut out, q);
                    assert(l.subrange(0, i + 1).drop_last() =~= l.subrange(0, i as int));
                    assert(l[i as int].1 == q@);
                    i += 1;
                }
                assert(l.subrange(0, i as int) =~= l);
            },
            Side::Buy => {
                let ks = priority_keys(&self.bids, Side::Buy);
                let ghost l = ladder_of(Side::Buy, self.bids@);
                let mut i: usize = ks.len();
                assert(l.skip(i as int) =~= Seq::<(u64, Seq<Order>)>::empty());
                while i > 0
                    invariant
                        i <= ks.len(),
                        ks@ == ranked(Side::Buy, self.bids@.dom()),
                        ranks(Side::Buy, self.bids@.dom(), ks@),
                        l == ladder_of(Side::Buy, self.bids@),
                        out@ == flatten_reversed(l.skip(i as int)),
                    decreases i,
                {
                    i -= 1;
                    proof {
                        assert(ks@.contains(ks@[i as int]));
                    }
                    let q = self.bids.get(&ks[i]).unwrap();
                    append_orders(&mut out, q);
                    assert(l.skip(i as int).drop_first() =~= l.skip(i + 1));
                    assert(l[i as int].1 == q@);
                }
                assert(l.skip(0) =~= l);
            },
        }
        out
    }

    /// The highest bid price on the book, whether or not orders still rest
    /// there; `None` on a book that never held a bid.
    pub fn best_bid(&self) -> (p: Option<u64>)
        ensures
            p == (if self@.bids.len() > 0 { Some(self@.bids[0].0) } else { None::<u64> }),
    {
        let ks = priority_keys(&self.bids, Side::Buy);
        if ks.len() > 0 {
            Some(ks[0])
        } else {
            None
        }
    }

    /// The lowest ask price on the book, whether or not orders still rest
    /// there; `None` on a book that never held an ask.
    pub fn best_ask(&self) -> (p: Option<u64>)
        ensures
            p == (if self@.asks.len() > 0 { Some(self@.asks[0].0) } else { None::<u64> }),
    {
        let ks = priority_keys(&self.asks, Side::Sell);
        if ks.len() > 0 {
            Some(ks[0])
        } else {
            None
        }
    }

    /// Each price level of `side` in the order of the book (bids from the
    /// highest price down, asks from the lowest up) with the quantity resting
    /// there; `None` where some level's quantity does not fit in `u64`.
    pub fn depth(&self, side: Side) -> (levels: Option<Vec<(u64, u64)>>)
        ensures
            ({
                let ladder = side_ladder(self@, side);
                match levels {
                    Some(v) => {
                        &&& v@.len() == ladder.len()
                        &&& forall|i: int|
                            0 <= i < ladder.len() ==> (#[trigger] v@[i]).0 == ladder[i].0
                                && v@[i].1 == queue_total(ladder[i].1)
                    },
                    None => exists|i: int|
                        0 <= i < ladder.len() && queue_total(#[trigger] ladder[i].1) > u64::MAX,
                }
            }),
    {
        assert(side_ladder(self@, Side::Buy) == ladder_of(Side::Buy, self.bids@));
        assert(side_ladder(self@, Side::Sell) == ladder_of(Side::Sell, self.asks@));
        match side {
            Side::Buy => depth_of(&self.bids, Side::Buy),
            Side::Sell => depth_of(&self.asks, Side::Sell),
        }
    }
}

/// The quantity resting in `orders`, or `None` where it does not fit in `u64`.
fn total_quantity(orders: &Vec<Order>) -> (total: Option<u64>)
    ensures
        match total {
            Some(t) => t == queue_total(orders@),
            None => queue_total(orders@) > u64::MAX,
        },
{
    let mut sum: u64 = 0;
    let mut j: usize = 0;
    while j < orders.len()
        invariant
            j <= orders.len(),
            sum == queue_total(orders@.subrange(0, j as int)),
        decreases orders.len() - j,
    {
        let ghost prefix = orders@.subrange(0, j as int);
        proof {
            assert(orders@.subrange(0, j + 1) =~= prefix + seq![orders@[j as int]]);
            lemma_queue_total_concat(prefix, seq![orders@[j as int]]);
            lemma_queue_total_single(orders@[j as int]);
        }
        match sum.checked_add(orders[j].quantity) {
            Some(s) => {
                sum = s;
            },
            None => {
                proof {
                    let rest = orders@.skip(j + 1);
                    assert(orders@ =~= orders@.subrange(0, j + 1) + rest);
                    lemma_queue_total_concat(orders@.subrange(0, j + 1), rest);
                    lemma_queue_total_nonneg(rest);
                }
                return None;
            },
        }
        j += 1;
    }
    assert(orders@.subrange(0, j as int) =~= orders@);
    Some(sum)
}

/// Each level of `levels`, the book of `side`, in priority order, with the
/// quantity resting there, or `None` where a level's quantity does not fit in
/// `u64`.
fn depth_of(levels: &BTreeMap<u64, Vec<Order>>, side: Side) -> (out: Option<Vec<(u64, u64)>>)
    ensures
        ({
            let ladder = ladder_of(side, levels@);
            match out {
                Some(v) => {
                    &&& v@.len() == ladder.len()
                    &&& forall|i: int|
                        0 <= i < ladder.len() ==> (#[trigger] v@[i]).0 == ladder[i].0 && v@[i].1
                            == queue_total(ladder[i].1)
                },
                None => exists|i: int|
                    0 <= i < ladder.len() && queue_total(#[trigger] ladder[i].1) > u64::MAX,
            }
        }),
{
    let ks = priority_keys(levels, side);
    let ghost ladder = ladder_of(side, levels@);
    let mut out: Vec<(u64, u64)> = Vec::new();
    let mut i: usize = 0;
    while i < ks.len()
        invariant
            i <= ks.len(),
            ks@ == ranked(side, levels@.dom()),
            ranks(side, levels@.dom(), ks@),
            ladder == ladder_of(side, levels@),
            out@.len() == i,
            forall|m: int|
                0 <= m < i ==> (#[trigger] out@[m]).0 == ladder[m].0 && out@[m].1 == queue_total(
                    ladder[m].1,
                ),
        decreases ks.len() - i,
    {
        proof {
            assert(ks@.contains(ks@[i as int]));
        }
        let q = levels.get(&ks[i]).unwrap();
        assert(ladder[i as int] == (ks@[i as int], q@));
        match total_quantity(q) {
            Some(t) => {
                out.push((ks[i], t));
            },
            None => {
                assert(queue_total(ladder[i as int].1) > u64::MAX);
                return None;
            },
        }
        i += 1;
    }
    Some(out)
}

} // verus!
