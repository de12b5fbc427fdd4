use vstd::prelude::*;
use crate::order::{Event, Order, Side};

verus! {

/// One side of the book, best price first: each entry is a price level and
/// the orders resting there, oldest first.
pub type Ladder = Seq<(u64, Seq<Order>)>;

/// On the book of `side`, a level at price `a` comes before one at `b`.
pub open spec fn ahead(side: Side, a: u64, b: u64) -> bool {
    match side {
        Side::Buy => a > b,
        Side::Sell => a < b,
    }
}

/// A resting level at `price` can trade with a `taker` order limited at `limit`.
pub open spec fn crosses(taker: Side, limit: u64, price: u64) -> bool {
    match taker {
        Side::Buy => price <= limit,
        Side::Sell => price >= limit,
    }
}

/// The levels of `ladder` stand in strict priority order for the book of `side`.
pub open spec fn sorted_ladder(side: Side, ladder: Ladder) -> bool {
    forall|i: int, j: int|
        0 <= i < j < ladder.len() ==> ahead(side, #[trigger] ladder[i].0, #[trigger] ladder[j].0)
}

/// `o` may rest at a level of price `price` on the book of `side`: it is on
/// that side, limited at that price, and has something left to trade.
pub open spec fn rests_at(o: Order, side: Side, price: u64) -> bool {
    &&& o.side == side
    &&& o.price == price
    &&& o.quantity > 0
}

/// Every order resting in `ladder` may rest where it is (see `rests_at`).
pub open spec fn resting_ok(side: Side, ladder: Ladder) -> bool {
    forall|i: int, j: int|
        0 <= i < ladder.len() && 0 <= j < ladder[i].1.len() ==> rests_at(
            #[trigger] ladder[i].1[j],
            side,
            ladder[i].0,
        )
}

/// What an incoming order leaves after trading against one queue.
pub struct Fill {
    pub remaining: u64,
    pub index: Map<u64, (Side, u64)>,
    pub kept: Seq<Order>,
    pub events: Seq<Event>,
}

/// An incoming order with `remaining` to trade, from the taker `taker`, meets
/// `queue` oldest first. Each resting order it reaches trades
/// `min(remaining, quantity)`; the trade reports the taker's id as the buyer
/// and the resting order's id as the seller, whichever sides they are on, and
/// the resting order's price and the quantity it had before the fill. A
/// resting order brought to zero
/// leaves the queue and the index; one left with something keeps its place.
pub open spec fn fill_queue(
    queue: Seq<Order>,
    remaining: u64,
    index: Map<u64, (Side, u64)>,
    taker: u64,
    ts: u64,
) -> Fill
    decreases queue.len(),
{
    if queue.len() == 0 || remaining == 0 {
        Fill { remaining, index, kept: queue, events: Seq::empty() }
    } else {
        let r = queue[0];
        let fill = if remaining <= r.quantity { remaining } else { r.quantity };
        let left = (r.quantity - fill) as u64;
        let trade = Event::Trade {
            buy_order_id: taker,
            sell_order_id: r.id,
            price: r.price,
            qty: r.quantity,
            timestamp: ts,
        };
        if left == 0 {
            let rest = fill_queue(
                queue.drop_first(),
                (remaining - fill) as u64,
                index.remove(r.id),
                taker,
                ts,
            );
            Fill {
                events: seq![trade, Event::RestingFulfilled { order_id: r.id, timestamp: ts }]
                    + rest.events,
                ..rest
            }
        } else {
            let rest = fill_queue(queue.drop_first(), (remaining - fill) as u64, index, taker, ts);
            Fill {
                kept: seq![Order { quantity: left, ..r }] + rest.kept,
                events: seq![trade] + rest.events,
                ..rest
            }
        }
    }
}

/// What an incoming order leaves after walking the opposite side of the book.
pub struct Sweep {
    pub remaining: u64,
    pub index: Map<u64, (Side, u64)>,
    pub levels: Ladder,
    pub events: Seq<Event>,
}

/// The incoming order `taker`, with `remaining` still to trade, walks the
/// opposite `ladder` best level first, and trades at each level it crosses
/// until nothing is left of it. Levels stay in the ladder even when emptied.
pub open spec fn sweep(
    ladder: Ladder,
    taker: Order,
    remaining: u64,
    index: Map<u64, (Side, u64)>,
    ts: u64,
) -> Sweep
    decreases ladder.len(),
{
    if ladder.len() == 0 || remaining == 0 || !crosses(taker.side, taker.price, ladder[0].0) {
        Sweep { remaining, index, levels: ladder, events: Seq::empty() }
    } else {
        let f = fill_queue(ladder[0].1, remaining, index, taker.id, ts);
        let rest = sweep(ladder.drop_first(), taker, f.remaining, f.index, ts);
        Sweep {
            levels: seq![(ladder[0].0, f.kept)] + rest.levels,
            events: f.events + rest.events,
            ..rest
        }
    }
}

/// `ladder` (of the side `o` is on) with `o` queued last at its price level,
/// a new level being opened in priority order where none exists.
pub open spec fn add_resting(ladder: Ladder, o: Order) -> Ladder
    decreases ladder.len(),
{
    if ladder.len() == 0 {
        seq![(o.price, seq![o])]
    } else if ladder[0].0 == o.price {
        seq![(o.price, ladder[0].1.push(o))] + ladder.drop_first()
    } else if ahead(o.side, o.price, ladder[0].0) {
        seq![(o.price, seq![o])] + ladder
    } else {
        seq![ladder[0]] + add_resting(ladder.drop_first(), o)
    }
}

/// The state of a book as the contracts see it: the bid ladder (highest price
/// first), the ask ladder (lowest price first), and the index from order id to
/// the side and price at which the order was rested.
#[verifier::ext_equal]
pub struct BookView {
    pub bids: Ladder,
    pub asks: Ladder,
    pub index: Map<u64, (Side, u64)>,
}

/// The ladder of `side` in `book`.
pub open spec fn side_ladder(book: BookView, side: Side) -> Ladder {
    match side {
        Side::Buy => book.bids,
        Side::Sell => book.asks,
    }
}

/// `book` with the ladder of `side` replaced by `ladder`.
pub open spec fn with_ladder(book: BookView, side: Side, ladder: Ladder) -> BookView {
    match side {
        Side::Buy => BookView { bids: ladder, ..book },
        Side::Sell => BookView { asks: ladder, ..book },
    }
}

/// The other side.
pub open spec fn opposite(side: Side) -> Side {
    match side {
        Side::Buy => Side::Sell,
        Side::Sell => Side::Buy,
    }
}

/// A well-formed book: both ladders in strict price priority, and every
/// resting order on its own side, at its level's price, with quantity left.
pub open spec fn book_wf(book: BookView) -> bool {
    &&& sorted_ladder(Side::Buy, book.bids)
    &&& sorted_ladder(Side::Sell, book.asks)
    &&& resting_ok(Side::Buy, book.bids)
    &&& resting_ok(Side::Sell, book.asks)
}

/// The book and the events after `order` is submitted at time `ts`: the order
/// is accepted, trades against the opposite ladder, and what is left of it,
/// if anything, rests on its own side and enters the index.
pub open spec fn submit_outcome(book: BookView, order: Order, ts: u64) -> (BookView, Seq<Event>) {
    let s = sweep(side_ladder(book, opposite(order.side)), order, order.quantity, book.index, ts);
    let swept = BookView { index: s.index, ..with_ladder(book, opposite(order.side), s.levels) };
    let accepted = seq![Event::Accepted { order_id: order.id, timestamp: ts }];
    if s.remaining > 0 {
        let resting = Order { quantity: s.remaining, ..order };
        let rested = BookView {
            index: s.index.insert(order.id, (order.side, order.price)),
            ..with_ladder(swept, order.side, add_resting(side_ladder(book, order.side), resting))
        };
        (rested, accepted + s.events + seq![Event::Rested { order_id: order.id, timestamp: ts }])
    } else {
        (swept, accepted + s.events)
    }
}

/// Where `add_resting` puts `o`: right after the first `k` levels, which are
/// all ahead of its price, either into the level at its price or into a new
/// level of its own.
pub proof fn lemma_add_resting_at(ladder: Ladder, o: Order, k: int)
    requires
        0 <= k <= ladder.len(),
        forall|m: int| 0 <= m < k ==> ahead(o.side, #[trigger] ladder[m].0, o.price),
        k < ladder.len() ==> !ahead(o.side, ladder[k].0, o.price),
    ensures
        add_resting(ladder, o) == ladder.subrange(0, k) + (if k < ladder.len() && ladder[k].0
            == o.price {
            seq![(o.price, ladder[k].1.push(o))] + ladder.skip(k + 1)
        } else {
            seq![(o.price, seq![o])] + ladder.skip(k)
        }),
    decreases k,
{
    if k == 0 {
        assert(ladder.skip(0) =~= ladder);
        if ladder.len() > 0 {
            assert(ladder.skip(1) =~= ladder.drop_first());
        }
        assert(ladder.subrange(0, 0) + add_resting(ladder, o) =~= add_resting(ladder, o));
    } else {
        let rest = ladder.drop_first();
        assert forall|m: int| 0 <= m < k - 1 implies ahead(o.side, #[trigger] rest[m].0, o.price) by {
            assert(rest[m] == ladder[m + 1]);
        }
        lemma_add_resting_at(rest, o, k - 1);
        assert(ahead(o.side, ladder[0].0, o.price));
        assert(rest.subrange(0, k - 1) =~= ladder.subrange(1, k));
        assert(rest.skip(k - 1) =~= ladder.skip(k));
        if k < ladder.len() {
            assert(rest.skip(k) =~= ladder.skip(k + 1));
            assert(rest[k - 1] == ladder[k]);
        }
        assert(seq![ladder[0]] + ladder.subrange(1, k) =~= ladder.subrange(0, k));
        let tail = if k < ladder.len() && ladder[k].0 == o.price {
            seq![(o.price, ladder[k].1.push(o))] + ladder.skip(k + 1)
        } else {
            seq![(o.price, seq![o])] + ladder.skip(k)
        };
        assert(seq![ladder[0]] + (ladder.subrange(1, k) + tail) =~= ladder.subrange(0, k) + tail);
    }
}

/// What trading against one queue keeps of it: no more orders than it had,
/// none once the incoming order still has something left, and only orders
/// that may rest where the queue stands.
pub proof fn lemma_fill_queue(
    queue: Seq<Order>,
    remaining: u64,
    index: Map<u64, (Side, u64)>,
    taker: u64,
    ts: u64,
    side: Side,
    price: u64,
)
    ensures
        ({
            let f = fill_queue(queue, remaining, index, taker, ts);
            &&& f.kept.len() <= queue.len()
            &&& f.remaining <= remaining
            &&& f.remaining > 0 ==> f.kept.len() == 0
            &&& (forall|j: int| 0 <= j < queue.len() ==> rests_at(#[trigger] queue[j], side, price))
                ==> (forall|j: int|
                0 <= j < f.kept.len() ==> rests_at(#[trigger] f.kept[j], side, price))
        }),
    decreases queue.len(),
{
    if queue.len() == 0 || remaining == 0 {
    } else {
        let r = queue[0];
        let fill = if remaining <= r.quantity { remaining } else { r.quantity };
        let left = (r.quantity - fill) as u64;
        let rest_index = if left == 0 { index.remove(r.id) } else { index };
        lemma_fill_queue(queue.drop_first(), (remaining - fill) as u64, rest_index, taker, ts, side, price);
        let f = fill_queue(queue, remaining, index, taker, ts);
        let rest = fill_queue(queue.drop_first(), (remaining - fill) as u64, rest_index, taker, ts);
        if forall|j: int| 0 <= j < queue.len() ==> rests_at(#[trigger] queue[j], side, price) {
            assert forall|j: int| 0 <= j < queue.len() - 1 implies rests_at(
                #[trigger] queue.drop_first()[j],
                side,
                price,
            ) by {
                assert(queue.drop_first()[j] == queue[j + 1]);
            }
            assert forall|j: int| 0 <= j < f.kept.len() implies rests_at(#[trigger] f.kept[j], side, price) by {
                if left != 0 {
                    assert(rests_at(queue[0], side, price));
                    if j > 0 {
                        assert(f.kept[j] == rest.kept[j - 1]);
                    }
                }
            }
        }
    }
}

/// What walking a ladder does to it: the same levels at the same prices, each
/// queue no longer than before and still holding only orders that may rest
/// there; and when the incoming order is not used up, every level it crosses
/// has been emptied (the ladder being in priority order).
pub proof fn lemma_sweep(
    ladder: Ladder,
    taker: Order,
    remaining: u64,
    index: Map<u64, (Side, u64)>,
    ts: u64,
    side: Side,
)
    ensures
        ({
            let s = sweep(ladder, taker, remaining, index, ts);
            &&& s.levels.len() == ladder.len()
            &&& forall|i: int| 0 <= i < ladder.len() ==> (#[trigger] s.levels[i]).0 == ladder[i].0
            &&& forall|i: int|
                0 <= i < ladder.len() ==> (#[trigger] s.levels[i]).1.len() <= ladder[i].1.len()
            &&& s.remaining <= remaining
            &&& resting_ok(side, ladder) ==> resting_ok(side, s.levels)
            &&& (s.remaining > 0 && sorted_ladder(opposite(taker.side), ladder)) ==> forall|i: int|
                0 <= i < ladder.len() && crosses(taker.side, taker.price, ladder[i].0)
                    ==> (#[trigger] s.levels[i]).1.len() == 0
        }),
    decreases ladder.len(),
{
    let s = sweep(ladder, taker, remaining, index, ts);
    if ladder.len() == 0 || remaining == 0 || !crosses(taker.side, taker.price, ladder[0].0) {
        if s.remaining > 0 && sorted_ladder(opposite(taker.side), ladder) && ladder.len() > 0 {
            assert forall|i: int|
                0 <= i < ladder.len() && crosses(taker.side, taker.price, ladder[i].0) implies (
            #[trigger] s.levels[i]).1.len() == 0 by {
                if i > 0 {
                    assert(ahead(opposite(taker.side), ladder[0].0, ladder[i].0));
                }
            }
        }
    } else {
        let f = fill_queue(ladder[0].1, remaining, index, taker.id, ts);
        let tail = ladder.drop_first();
        let rest = sweep(tail, taker, f.remaining, f.index, ts);
        lemma_fill_queue(ladder[0].1, remaining, index, taker.id, ts, side, ladder[0].0);
        lemma_sweep(tail, taker, f.remaining, f.index, ts, side);
        assert forall|i: int| 0 < i < ladder.len() implies s.levels[i] == rest.levels[i - 1]
            && ladder[i] == tail[i - 1] by {}
        if resting_ok(side, ladder) {
            assert forall|i: int, j: int| 0 <= i < tail.len() && 0 <= j < tail[i].1.len() implies rests_at(
                #[trigger] tail[i].1[j],
                side,
                tail[i].0,
            ) by {
                assert(tail[i] == ladder[i + 1]);
            }
            assert forall|j: int| 0 <= j < ladder[0].1.len() implies rests_at(
                #[trigger] ladder[0].1[j],
                side,
                ladder[0].0,
            ) by {}
            assert forall|i: int, j: int|
                0 <= i < s.levels.len() && 0 <= j < s.levels[i].1.len() implies rests_at(
                #[trigger] s.levels[i].1[j],
                side,
                s.levels[i].0,
            ) by {
                if i > 0 {
                    assert(s.levels[i] == rest.levels[i - 1]);
                }
            }
        }
        if s.remaining > 0 && sorted_ladder(opposite(taker.side), ladder) {
            assert(sorted_ladder(opposite(taker.side), tail)) by {
                assert forall|i: int, j: int| 0 <= i < j < tail.len() implies ahead(
                    opposite(taker.side),
                    #[trigger] tail[i].0,
                    #[trigger] tail[j].0,
                ) by {
                    assert(tail[i] == ladder[i + 1] && tail[j] == ladder[j + 1]);
                }
            }
        }
    }
}

/// What queuing `o` does to its own ladder: every level afterwards is either
/// at `o`'s price or one of the levels before; priority order is kept, and so
/// is every resting order's right to rest where it is.
pub proof fn lemma_add_resting(ladder: Ladder, o: Order)
    ensures
        ({
            let r = add_resting(ladder, o);
            &&& forall|i: int| 0 <= i < r.len() ==> (#[trigger] r[i]).0 == o.price || ladder.contains(r[i])
            &&& sorted_ladder(o.side, ladder) ==> sorted_ladder(o.side, r)
            &&& (resting_ok(o.side, ladder) && rests_at(o, o.side, o.price)) ==> resting_ok(o.side, r)
        }),
    decreases ladder.len(),
{
    let r = add_resting(ladder, o);
    if ladder.len() == 0 {
    } else if ladder[0].0 == o.price {
        assert forall|i: int| 0 < i < r.len() implies r[i] == ladder[i] by {}
        assert forall|i: int| 0 <= i < r.len() implies (#[trigger] r[i]).0 == o.price || ladder.contains(r[i]) by {
            if i > 0 {
                assert(r[i] == ladder[i]);
            }
        }
        if resting_ok(o.side, ladder) && rests_at(o, o.side, o.price) {
            assert forall|i: int, j: int|
                0 <= i < r.len() && 0 <= j < r[i].1.len() implies rests_at(
                #[trigger] r[i].1[j],
                o.side,
                r[i].0,
            ) by {
                if i > 0 {
                    assert(r[i] == ladder[i]);
                    assert(rests_at(ladder[i].1[j], o.side, ladder[i].0));
                } else if j < ladder[0].1.len() {
                    assert(r[0].1[j] == ladder[0].1[j]);
                    assert(rests_at(ladder[0].1[j], o.side, ladder[0].0));
                } else {
                    assert(r[0].1[j] == o);
                }
            }
        }
    } else if ahead(o.side, o.price, ladder[0].0) {
        assert forall|i: int| 0 < i < r.len() implies r[i] == ladder[i - 1] by {}
        assert forall|i: int| 0 <= i < r.len() implies (#[trigger] r[i]).0 == o.price || ladder.contains(r[i]) by {
            if i > 0 {
                assert(r[i] == ladder[i - 1]);
            }
        }
        if sorted_ladder(o.side, ladder) {
            assert forall|i: int, j: int| 0 <= i < j < r.len() implies ahead(
                o.side,
                #[trigger] r[i].0,
                #[trigger] r[j].0,
            ) by {
                assert(r[j] == ladder[j - 1]);
                if i > 0 {
                    assert(r[i] == ladder[i - 1]);
                } else if j > 1 {
                    assert(ahead(o.side, ladder[0].0, ladder[j - 1].0));
                }
            }
        }
        if resting_ok(o.side, ladder) && rests_at(o, o.side, o.price) {
            assert forall|i: int, j: int|
                0 <= i < r.len() && 0 <= j < r[i].1.len() implies rests_at(
                #[trigger] r[i].1[j],
                o.side,
                r[i].0,
            ) by {
                if i > 0 {
                    assert(r[i] == ladder[i - 1]);
                    assert(rests_at(ladder[i - 1].1[j], o.side, ladder[i - 1].0));
                } else {
                    assert(r[0].1[j] == o);
                }
            }
        }
    } else {
        let tail = ladder.drop_first();
        let rt = add_resting(tail, o);
        lemma_add_resting(tail, o);
        assert forall|i: int| 0 < i < r.len() implies r[i] == rt[i - 1] by {}
        assert forall|i: int| 0 <= i < r.len() implies (#[trigger] r[i]).0 == o.price || ladder.contains(r[i]) by {
            if i == 0 {
                assert(ladder[0] == r[0]);
            } else {
                assert(r[i] == rt[i - 1]);
                if rt[i - 1].0 != o.price {
                    let j = choose|j: int| 0 <= j < tail.len() && tail[j] == rt[i - 1];
                    assert(ladder[j + 1] == r[i]);
                }
            }
        }
        if sorted_ladder(o.side, ladder) {
            assert(sorted_ladder(o.side, tail)) by {
                assert forall|i: int, j: int| 0 <= i < j < tail.len() implies ahead(
                    o.side,
                    #[trigger] tail[i].0,
                    #[trigger] tail[j].0,
                ) by {
                    assert(tail[i] == ladder[i + 1] && tail[j] == ladder[j + 1]);
                }
            }
            assert forall|i: int, j: int| 0 <= i < j < r.len() implies ahead(
                o.side,
                #[trigger] r[i].0,
                #[trigger] r[j].0,
            ) by {
                assert(r[j] == rt[j - 1]);
                if i > 0 {
                    assert(r[i] == rt[i - 1]);
                } else {
                    if rt[j - 1].0 != o.price {
                        let k = choose|k: int| 0 <= k < tail.len() && tail[k] == rt[j - 1];
                        assert(ladder[k + 1] == rt[j - 1]);
                        assert(ahead(o.side, ladder[0].0, ladder[k + 1].0));
                    }
                }
            }
        }
        if resting_ok(o.side, ladder) && rests_at(o, o.side, o.price) {
            assert(resting_ok(o.side, tail)) by {
                assert forall|i: int, j: int|
                    0 <= i < tail.len() && 0 <= j < tail[i].1.len() implies rests_at(
                    #[trigger] tail[i].1[j],
                    o.side,
                    tail[i].0,
                ) by {
                    assert(tail[i] == ladder[i + 1]);
                }
            }
            assert forall|i: int, j: int|
                0 <= i < r.len() && 0 <= j < r[i].1.len() implies rests_at(
                #[trigger] r[i].1[j],
                o.side,
                r[i].0,
            ) by {
                if i > 0 {
                    assert(r[i] == rt[i - 1]);
                    assert(rests_at(rt[i - 1].1[j], o.side, rt[i - 1].0));
                } else {
                    assert(rests_at(ladder[0].1[j], o.side, ladder[0].0));
                }
            }
        }
    }
}

/// Submitting an order to a well-formed book leaves a well-formed book.
pub proof fn lemma_submit_wf(book: BookView, order: Order, ts: u64)
    requires
        book_wf(book),
    ensures
        book_wf(submit_outcome(book, order, ts).0),
{
    let opp = opposite(order.side);
    let ladder = side_ladder(book, opp);
    let s = sweep(ladder, order, order.quantity, book.index, ts);
    lemma_sweep(ladder, order, order.quantity, book.index, ts, opp);
    assert(sorted_ladder(opp, s.levels)) by {
        assert forall|i: int, j: int| 0 <= i < j < s.levels.len() implies ahead(
            opp,
            #[trigger] s.levels[i].0,
            #[trigger] s.levels[j].0,
        ) by {
            assert(ahead(opp, ladder[i].0, ladder[j].0));
        }
    }
    if s.remaining > 0 {
        let resting = Order { quantity: s.remaining, ..order };
        lemma_add_resting(side_ladder(book, order.side), resting);
    }
}

/// How a cancel request ends.
pub enum CancelVerdict {
    /// The order was found resting and taken off the book.
    Cancelled,
    /// The index does not know the id.
    UnknownOrder,
    /// The index knows the id, but no order with it rests where the index says.
    NotResting,
}

/// `ladder` has a level at `price` at position `i`.
pub open spec fn level_at(ladder: Ladder, price: u64, i: int) -> bool {
    0 <= i < ladder.len() && ladder[i].0 == price
}

/// `j` is the position of the oldest order with id `id` in `queue`.
pub open spec fn first_with_id(queue: Seq<Order>, id: u64, j: int) -> bool {
    &&& 0 <= j < queue.len()
    &&& queue[j].id == id
    &&& forall|k: int| 0 <= k < j ==> queue[k].id != id
}

/// `ladder` without the oldest order with id `id` at the level of `price`, or
/// `None` where there is no such level or no such order in it.
pub open spec fn remove_first(ladder: Ladder, price: u64, id: u64) -> Option<Ladder> {
    if exists|i: int| level_at(ladder, price, i) {
        let i = choose|i: int| level_at(ladder, price, i);
        let queue = ladder[i].1;
        if exists|j: int| first_with_id(queue, id, j) {
            let j = choose|j: int| first_with_id(queue, id, j);
            Some(ladder.update(i, (price, queue.remove(j))))
        } else {
            None
        }
    } else {
        None
    }
}

/// The book after a request to cancel the order `id`, and how the request
/// ends: the index says where the order was rested; the oldest order with that
/// id at that level leaves the book and the id leaves the index. Otherwise
/// nothing changes.
pub open spec fn cancel_outcome(book: BookView, id: u64) -> (BookView, CancelVerdict) {
    if !book.index.contains_key(id) {
        (book, CancelVerdict::UnknownOrder)
    } else {
        let side = book.index[id].0;
        match remove_first(side_ladder(book, side), book.index[id].1, id) {
            Some(ladder) => (
                BookView { index: book.index.remove(id), ..with_ladder(book, side, ladder) },
                CancelVerdict::Cancelled,
            ),
            None => (book, CancelVerdict::NotResting),
        }
    }
}

/// Taking one order out of one level keeps a ladder in priority order and
/// keeps every remaining order's right to rest where it is.
pub proof fn lemma_remove_order_wf(side: Side, ladder: Ladder, i: int, j: int)
    requires
        0 <= i < ladder.len(),
        0 <= j < ladder[i].1.len(),
    ensures
        sorted_ladder(side, ladder) ==> sorted_ladder(
            side,
            ladder.update(i, (ladder[i].0, ladder[i].1.remove(j))),
        ),
        resting_ok(side, ladder) ==> resting_ok(
            side,
            ladder.update(i, (ladder[i].0, ladder[i].1.remove(j))),
        ),
{
    let l2 = ladder.update(i, (ladder[i].0, ladder[i].1.remove(j)));
    if sorted_ladder(side, ladder) {
        assert forall|a: int, b: int| 0 <= a < b < l2.len() implies ahead(
            side,
            #[trigger] l2[a].0,
            #[trigger] l2[b].0,
        ) by {
            assert(ahead(side, ladder[a].0, ladder[b].0));
        }
    }
    if resting_ok(side, ladder) {
        assert forall|a: int, b: int| 0 <= a < l2.len() && 0 <= b < l2[a].1.len() implies rests_at(
            #[trigger] l2[a].1[b],
            side,
            l2[a].0,
        ) by {
            if a == i {
                if b < j {
                    assert(l2[a].1[b] == ladder[a].1[b]);
                    assert(rests_at(ladder[a].1[b], side, ladder[a].0));
                } else {
                    assert(l2[a].1[b] == ladder[a].1[b + 1]);
                    assert(rests_at(ladder[a].1[b + 1], side, ladder[a].0));
                }
            } else {
                assert(rests_at(ladder[a].1[b], side, ladder[a].0));
            }
        }
    }
}

/// Cancelling leaves a well-formed book well-formed.
pub proof fn lemma_cancel_wf(book: BookView, id: u64)
    requires
        book_wf(book),
    ensures
        book_wf(cancel_outcome(book, id).0),
{
    if book.index.contains_key(id) {
        let side = book.index[id].0;
        let price = book.index[id].1;
        let ladder = side_ladder(book, side);
        if exists|i: int| level_at(ladder, price, i) {
            let i = choose|i: int| level_at(ladder, price, i);
            let queue = ladder[i].1;
            if exists|j: int| first_with_id(queue, id, j) {
                let j = choose|j: int| first_with_id(queue, id, j);
                assert(ladder[i].0 == price);
                lemma_remove_order_wf(side, ladder, i, j);
            }
        }
    }
}

/// The reply that ends the events of a cancel request for `id` at time `ts`
/// that ended as `verdict`.
pub open spec fn cancel_reply(e: Event, id: u64, ts: u64, verdict: CancelVerdict) -> bool {
    match verdict {
        CancelVerdict::Cancelled => e == Event::Cancelled { order_id: id, timestamp: ts },
        CancelVerdict::UnknownOrder => e matches Event::Rejected { order_id, reason, timestamp }
            && order_id == id && timestamp == ts && reason@ == "Order not found"@,
        CancelVerdict::NotResting => e matches Event::Rejected { order_id, reason, timestamp }
            && order_id == id && timestamp == ts && reason@ == "Matching trade not found"@,
    }
}

/// The orders of `ladder`, level by level in ladder order, oldest first at each.
pub open spec fn flatten(ladder: Ladder) -> Seq<Order>
    decreases ladder.len(),
{
    if ladder.len() == 0 {
        Seq::empty()
    } else {
        flatten(ladder.drop_last()) + ladder.last().1
    }
}

/// The orders of `ladder`, level by level from its last level to its first,
/// oldest first at each.
pub open spec fn flatten_reversed(ladder: Ladder) -> Seq<Order>
    decreases ladder.len(),
{
    if ladder.len() == 0 {
        Seq::empty()
    } else {
        flatten_reversed(ladder.drop_first()) + ladder[0].1
    }
}

/// The orders resting on `side` of `book`, by ascending price, oldest first at
/// each price.
pub open spec fn outstanding(book: BookView, side: Side) -> Seq<Order> {
    match side {
        Side::Buy => flatten_reversed(book.bids),
        Side::Sell => flatten(book.asks),
    }
}

/// No buy order rests at or above the price of a resting sell order: every
/// bid level that holds an order is priced below every ask level that holds one.
pub open spec fn uncrossed(book: BookView) -> bool {
    forall|i: int, j: int|
        #![trigger book.bids[i], book.asks[j]]
        0 <= i < book.bids.len() && 0 <= j < book.asks.len() && book.bids[i].1.len() > 0
            && book.asks[j].1.len() > 0 ==> book.bids[i].0 < book.asks[j].0
}

/// Taking an order out of a ladder keeps its levels and their prices and
/// shortens no queue but one.
pub proof fn lemma_remove_first(ladder: Ladder, price: u64, id: u64)
    ensures
        remove_first(ladder, price, id) matches Some(l2) ==> {
            &&& l2.len() == ladder.len()
            &&& forall|i: int| 0 <= i < ladder.len() ==> (#[trigger] l2[i]).0 == ladder[i].0
                && l2[i].1.len() <= ladder[i].1.len()
        },
{
}

/// The quantity resting in `queue`.
pub open spec fn queue_total(queue: Seq<Order>) -> int
    decreases queue.len(),
{
    if queue.len() == 0 {
        0
    } else {
        queue[0].quantity + queue_total(queue.drop_first())
    }
}

/// The quantity resting in `ladder`.
pub open spec fn ladder_total(ladder: Ladder) -> int
    decreases ladder.len(),
{
    if ladder.len() == 0 {
        0
    } else {
        queue_total(ladder[0].1) + ladder_total(ladder.drop_first())
    }
}

pub proof fn lemma_queue_total_concat(a: Seq<Order>, b: Seq<Order>)
    ensures
        queue_total(a + b) == queue_total(a) + queue_total(b),
    decreases a.len(),
{
    if a.len() == 0 {
        assert(a + b =~= b);
    } else {
        lemma_queue_total_concat(a.drop_first(), b);
        assert((a + b).drop_first() =~= a.drop_first() + b);
    }
}

/// No queue holds a negative quantity.
pub proof fn lemma_queue_total_nonneg(queue: Seq<Order>)
    ensures
        queue_total(queue) >= 0,
    decreases queue.len(),
{
    if queue.len() > 0 {
        lemma_queue_total_nonneg(queue.drop_first());
    }
}

pub proof fn lemma_queue_total_single(o: Order)
    ensures
        queue_total(seq![o]) == o.quantity,
{
    assert(seq![o].drop_first() =~= Seq::<Order>::empty());
    assert(queue_total(seq![o]) == o.quantity + queue_total(seq![o].drop_first()));
}

/// Where in `ladder` (of `o`'s side) `o` is queued: the number of levels ahead
/// of its price.
pub open spec fn rest_position(ladder: Ladder, o: Order) -> int
    decreases ladder.len(),
{
    if ladder.len() == 0 || ladder[0].0 == o.price || ahead(o.side, o.price, ladder[0].0) {
        0
    } else {
        1 + rest_position(ladder.drop_first(), o)
    }
}

/// Some order in `queue` carries the id `id`.
pub open spec fn has_id(queue: Seq<Order>, id: u64) -> bool {
    exists|m: int| 0 <= m < queue.len() && (#[trigger] queue[m]).id == id
}

/// An order with id `id` rests in `ladder` at the level of `price`.
pub open spec fn rests_in(ladder: Ladder, price: u64, id: u64) -> bool {
    exists|i: int| level_at(ladder, price, i) && has_id(#[trigger] ladder[i].1, id)
}

/// Every id the index knows belongs to an order resting on the recorded side
/// at the level of the recorded price.
pub open spec fn index_ok(book: BookView) -> bool {
    forall|id: u64| #[trigger]
        book.index.contains_key(id) ==> rests_in(
            side_ladder(book, book.index[id].0),
            book.index[id].1,
            id,
        )
}

/// `small` holds some of the entries of `big`, unchanged.
pub open spec fn sub_index(small: Map<u64, (Side, u64)>, big: Map<u64, (Side, u64)>) -> bool {
    forall|k: u64| #[trigger] small.contains_key(k) ==> big.contains_key(k) && small[k] == big[k]
}

} // verus!
