use vstd::prelude::*;
use crate::matching::{
    add_resting, ahead, book_wf, cancel_outcome, crosses, fill_queue, first_with_id, flatten,
    flatten_reversed, has_id, index_ok, ladder_total, lemma_add_resting, lemma_add_resting_at,
    lemma_queue_total_concat, lemma_queue_total_single, lemma_remove_first, lemma_sweep,
    level_at, opposite, resting_ok, sorted_ladder, outstanding, queue_total, remove_first, rest_position, rests_at, rests_in,
    side_ladder, sub_index, submit_outcome, sweep, uncrossed, with_ladder, BookView,
    CancelVerdict, Ladder,
};
use crate::order::{Event, Order, Side};

verus! {

/// Submitting an order never leaves the book crossed: what is left of an
/// incoming order rests only once nothing on the other side can trade with it.
pub proof fn law_submit_keeps_book_uncrossed(book: BookView, order: Order, ts: u64)
    requires
        book_wf(book),
        uncrossed(book),
    ensures
        uncrossed(submit_outcome(book, order, ts).0),
{
    let opp = opposite(order.side);
    let ladder = side_ladder(book, opp);
    let s = sweep(ladder, order, order.quantity, book.index, ts);
    lemma_sweep(ladder, order, order.quantity, book.index, ts, opp);
    let after = submit_outcome(book, order, ts).0;
    let resting = Order { quantity: s.remaining, ..order };
    if s.remaining > 0 {
        lemma_add_resting(side_ladder(book, order.side), resting);
    }
    match order.side {
        Side::Buy => {
            assert forall|i: int, j: int|
                #![trigger after.bids[i], after.asks[j]]
                0 <= i < after.bids.len() && 0 <= j < after.asks.len() && after.bids[i].1.len()
                    > 0 && after.asks[j].1.len() > 0 implies after.bids[i].0 < after.asks[j].0 by {
                assert(after.asks[j] == s.levels[j]);
                assert(book.asks[j].1.len() > 0);
                if s.remaining > 0 {
                    if after.bids[i].0 == order.price {
                        assert(!crosses(order.side, order.price, book.asks[j].0));
                    } else {
                        let k = choose|k: int| 0 <= k < book.bids.len() && book.bids[k] == after.bids[i];
                        assert(book.bids[k].0 < book.asks[j].0);
                    }
                } else {
                    assert(book.bids[i].0 < book.asks[j].0);
                }
            }
        },
        Side::Sell => {
            assert forall|i: int, j: int|
                #![trigger after.bids[i], after.asks[j]]
                0 <= i < after.bids.len() && 0 <= j < after.asks.len() && after.bids[i].1.len()
                    > 0 && after.asks[j].1.len() > 0 implies after.bids[i].0 < after.asks[j].0 by {
                assert(after.bids[i] == s.levels[i]);
                assert(book.bids[i].1.len() > 0);
                if s.remaining > 0 {
                    if after.asks[j].0 == order.price {
                        assert(!crosses(order.side, order.price, book.bids[i].0));
                    } else {
                        let k = choose|k: int| 0 <= k < book.asks.len() && book.asks[k] == after.asks[j];
                        assert(book.bids[i].0 < book.asks[k].0);
                    }
                } else {
                    assert(book.bids[i].0 < book.asks[j].0);
                }
            }
        },
    }
}

/// Cancelling never leaves the book crossed.
pub proof fn law_cancel_keeps_book_uncrossed(book: BookView, id: u64)
    requires
        uncrossed(book),
    ensures
        uncrossed(cancel_outcome(book, id).0),
{
    if book.index.contains_key(id) {
        let side = book.index[id].0;
        lemma_remove_first(side_ladder(book, side), book.index[id].1, id);
        let after = cancel_outcome(book, id).0;
        assert forall|i: int, j: int|
            #![trigger after.bids[i], after.asks[j]]
            0 <= i < after.bids.len() && 0 <= j < after.asks.len() && after.bids[i].1.len() > 0
                && after.asks[j].1.len() > 0 implies after.bids[i].0 < after.asks[j].0 by {
            assert(book.bids[i].0 < book.asks[j].0);
        }
    }
}

proof fn lemma_fill_queue_total(
    queue: Seq<Order>,
    remaining: u64,
    index: Map<u64, (Side, u64)>,
    taker: u64,
    ts: u64,
)
    ensures
        ({
            let f = fill_queue(queue, remaining, index, taker, ts);
            queue_total(queue) - queue_total(f.kept) == remaining - f.remaining
        }),
    decreases queue.len(),
{
    if queue.len() == 0 || remaining == 0 {
    } else {
        let r = queue[0];
        let fill = if remaining <= r.quantity { remaining } else { r.quantity };
        let left = (r.quantity - fill) as u64;
        let rest_index = if left == 0 { index.remove(r.id) } else { index };
        lemma_fill_queue_total(queue.drop_first(), (remaining - fill) as u64, rest_index, taker, ts);
        let rest = fill_queue(queue.drop_first(), (remaining - fill) as u64, rest_index, taker, ts);
        if left != 0 {
            let head = Order { quantity: left, ..r };
            lemma_queue_total_concat(seq![head], rest.kept);
            lemma_queue_total_single(head);
        }
    }
}

proof fn lemma_sweep_total(
    ladder: Ladder,
    taker: Order,
    remaining: u64,
    index: Map<u64, (Side, u64)>,
    ts: u64,
)
    ensures
        ({
            let s = sweep(ladder, taker, remaining, index, ts);
            ladder_total(ladder) - ladder_total(s.levels) == remaining - s.remaining
        }),
    decreases ladder.len(),
{
    if ladder.len() == 0 || remaining == 0 || !crosses(taker.side, taker.price, ladder[0].0) {
    } else {
        let f = fill_queue(ladder[0].1, remaining, index, taker.id, ts);
        lemma_fill_queue_total(ladder[0].1, remaining, index, taker.id, ts);
        lemma_sweep_total(ladder.drop_first(), taker, f.remaining, f.index, ts);
        let rest = sweep(ladder.drop_first(), taker, f.remaining, f.index, ts);
        let s = sweep(ladder, taker, remaining, index, ts);
        assert(s.levels.drop_first() =~= rest.levels);
    }
}

proof fn lemma_add_resting_total(ladder: Ladder, o: Order)
    ensures
        ladder_total(add_resting(ladder, o)) == ladder_total(ladder) + o.quantity,
    decreases ladder.len(),
{
    let r = add_resting(ladder, o);
    lemma_queue_total_single(o);
    if ladder.len() == 0 {
        assert(r.drop_first() =~= Seq::<(u64, Seq<Order>)>::empty());
        assert(ladder_total(r) == queue_total(r[0].1) + ladder_total(r.drop_first()));
    } else if ladder[0].0 == o.price {
        assert(r.drop_first() =~= ladder.drop_first());
        lemma_queue_total_concat(ladder[0].1, seq![o]);
        assert(ladder[0].1.push(o) =~= ladder[0].1 + seq![o]);
        assert(ladder_total(r) == queue_total(r[0].1) + ladder_total(r.drop_first()));
    } else if ahead(o.side, o.price, ladder[0].0) {
        assert(r.drop_first() =~= ladder);
        assert(ladder_total(r) == queue_total(r[0].1) + ladder_total(r.drop_first()));
    } else {
        lemma_add_resting_total(ladder.drop_first(), o);
        assert(r.drop_first() =~= add_resting(ladder.drop_first(), o));
    }
}

/// Submitting an order creates and destroys no quantity: what it takes off
/// the opposite side and what it adds to its own side make up its quantity
/// exactly, and neither is negative.
pub proof fn law_submit_conserves_quantity(book: BookView, order: Order, ts: u64)
    ensures
        ({
            let after = submit_outcome(book, order, ts).0;
            let opp = opposite(order.side);
            let traded = ladder_total(side_ladder(book, opp)) - ladder_total(side_ladder(after, opp));
            let rested = ladder_total(side_ladder(after, order.side)) - ladder_total(
                side_ladder(book, order.side),
            );
            &&& 0 <= traded
            &&& 0 <= rested
            &&& traded + rested == order.quantity
        }),
{
    let opp = opposite(order.side);
    let ladder = side_ladder(book, opp);
    let s = sweep(ladder, order, order.quantity, book.index, ts);
    lemma_sweep_total(ladder, order, order.quantity, book.index, ts);
    lemma_sweep(ladder, order, order.quantity, book.index, ts, opp);
    if s.remaining > 0 {
        lemma_add_resting_total(side_ladder(book, order.side), Order { quantity: s.remaining, ..order });
    }
}

pub proof fn lemma_rest_position(ladder: Ladder, o: Order)
    ensures
        0 <= rest_position(ladder, o) <= ladder.len(),
        forall|m: int|
            0 <= m < rest_position(ladder, o) ==> ahead(o.side, #[trigger] ladder[m].0, o.price),
        rest_position(ladder, o) < ladder.len() ==> !ahead(
            o.side,
            ladder[rest_position(ladder, o)].0,
            o.price,
        ),
    decreases ladder.len(),
{
    if ladder.len() == 0 || ladder[0].0 == o.price || ahead(o.side, o.price, ladder[0].0) {
    } else {
        let tail = ladder.drop_first();
        lemma_rest_position(tail, o);
        assert forall|m: int| 0 <= m < rest_position(ladder, o) implies ahead(
            o.side,
            #[trigger] ladder[m].0,
            o.price,
        ) by {
            if m > 0 {
                assert(ladder[m] == tail[m - 1]);
            }
        }
    }
}

proof fn lemma_flatten_concat(a: Ladder, b: Ladder)
    ensures
        flatten(a + b) == flatten(a) + flatten(b),
    decreases b.len(),
{
    if b.len() == 0 {
        assert(a + b =~= a);
        assert(flatten(a) + flatten(b) =~= flatten(a));
    } else {
        lemma_flatten_concat(a, b.drop_last());
        assert((a + b).drop_last() =~= a + b.drop_last());
        assert((a + b).last() == b.last());
        assert(flatten(a) + (flatten(b.drop_last()) + b.last().1) =~= flatten(a) + flatten(
            b.drop_last(),
        ) + b.last().1);
    }
}

proof fn lemma_flatten_reversed_concat(a: Ladder, b: Ladder)
    ensures
        flatten_reversed(a + b) == flatten_reversed(b) + flatten_reversed(a),
    decreases a.len(),
{
    if a.len() == 0 {
        assert(a + b =~= b);
        assert(flatten_reversed(b) + flatten_reversed(a) =~= flatten_reversed(b));
    } else {
        lemma_flatten_reversed_concat(a.drop_first(), b);
        assert((a + b).drop_first() =~= a.drop_first() + b);
        assert((a + b)[0] == a[0]);
        assert(flatten_reversed(b) + flatten_reversed(a.drop_first()) + a[0].1 =~= flatten_reversed(
            b,
        ) + (flatten_reversed(a.drop_first()) + a[0].1));
    }
}

/// An empty level anywhere in a ladder adds no outstanding order, in either
/// reading order.
proof fn lemma_empty_level_adds_nothing(ladder: Ladder, k: int, price: u64)
    requires
        0 <= k <= ladder.len(),
    ensures
        ({
            let with = ladder.subrange(0, k) + (seq![(price, Seq::<Order>::empty())] + ladder.skip(k));
            &&& flatten(with) == flatten(ladder)
            &&& flatten_reversed(with) == flatten_reversed(ladder)
        }),
{
    let a = ladder.subrange(0, k);
    let b = ladder.skip(k);
    let e = seq![(price, Seq::<Order>::empty())];
    assert(a + b =~= ladder);
    lemma_flatten_concat(e, b);
    lemma_flatten_concat(a, e + b);
    lemma_flatten_concat(a, b);
    lemma_flatten_reversed_concat(e, b);
    lemma_flatten_reversed_concat(a, e + b);
    lemma_flatten_reversed_concat(a, b);
    assert(e.drop_last() =~= Seq::<(u64, Seq<Order>)>::empty());
    assert(flatten(e.drop_last()) == Seq::<Order>::empty());
    assert(flatten(e) == flatten(e.drop_last()) + e.last().1);
    assert(flatten(e) =~= Seq::<Order>::empty());
    assert(e.drop_first() =~= Seq::<(u64, Seq<Order>)>::empty());
    assert(flatten_reversed(e.drop_first()) == Seq::<Order>::empty());
    assert(flatten_reversed(e) == flatten_reversed(e.drop_first()) + e[0].1);
    assert(flatten_reversed(e) =~= Seq::<Order>::empty());
    assert(flatten(e) + flatten(b) =~= flatten(b));
    assert(flatten_reversed(b) + flatten_reversed(e) =~= flatten_reversed(b));
}

/// Walking a ladder whose crossing levels are all empty changes nothing.
proof fn lemma_sweep_idle(
    ladder: Ladder,
    taker: Order,
    remaining: u64,
    index: Map<u64, (Side, u64)>,
    ts: u64,
)
    requires
        forall|i: int|
            0 <= i < ladder.len() && crosses(taker.side, taker.price, #[trigger] ladder[i].0)
                ==> ladder[i].1.len() == 0,
    ensures
        ({
            let s = sweep(ladder, taker, remaining, index, ts);
            &&& s.levels == ladder
            &&& s.remaining == remaining
            &&& s.index == index
            &&& s.events == Seq::<Event>::empty()
        }),
    decreases ladder.len(),
{
    if ladder.len() == 0 || remaining == 0 || !crosses(taker.side, taker.price, ladder[0].0) {
    } else {
        let tail = ladder.drop_first();
        assert forall|i: int|
            0 <= i < tail.len() && crosses(taker.side, taker.price, #[trigger] tail[i].0) implies tail[i].1.len()
            == 0 by {
            assert(tail[i] == ladder[i + 1]);
        }
        lemma_sweep_idle(tail, taker, remaining, index, ts);
        let s = sweep(ladder, taker, remaining, index, ts);
        assert(s.levels =~= ladder);
        assert(s.events =~= Seq::<Event>::empty());
    }
}

/// An order that no resting order on the other side can trade with, sent
/// under an id that no order resting on its own side carries, rests whole;
/// cancelling it at once succeeds and gives back the outstanding orders of
/// both sides as they were, and the index as it was but for that id.
pub proof fn law_cancel_undoes_resting_submit(book: BookView, order: Order, ts: u64)
    requires
        book_wf(book),
        order.quantity > 0,
        forall|i: int|
            0 <= i < side_ladder(book, opposite(order.side)).len() && #[trigger] side_ladder(
                book,
                opposite(order.side),
            )[i].1.len() > 0 ==> !crosses(
                order.side,
                order.price,
                side_ladder(book, opposite(order.side))[i].0,
            ),
        forall|i: int, j: int|
            0 <= i < side_ladder(book, order.side).len() && 0 <= j < side_ladder(
                book,
                order.side,
            )[i].1.len() ==> (#[trigger] side_ladder(book, order.side)[i].1[j]).id != order.id,
    ensures
        ({
            let after = submit_outcome(book, order, ts).0;
            let (undone, verdict) = cancel_outcome(after, order.id);
            &&& verdict == CancelVerdict::Cancelled
            &&& outstanding(undone, Side::Buy) == outstanding(book, Side::Buy)
            &&& outstanding(undone, Side::Sell) == outstanding(book, Side::Sell)
            &&& undone.index == book.index.remove(order.id)
        }),
{
    let side = order.side;
    let opp = opposite(side);
    let other = side_ladder(book, opp);
    let own = side_ladder(book, side);
    lemma_sweep_idle(other, order, order.quantity, book.index, ts);
    let s = sweep(other, order, order.quantity, book.index, ts);
    assert(order == Order { quantity: s.remaining, ..order });
    let after = submit_outcome(book, order, ts).0;
    let r = add_resting(own, order);
    assert(side_ladder(after, side) == r);
    assert(side_ladder(after, opp) == other);
    assert(after.index == book.index.insert(order.id, (side, order.price)));
    let k = rest_position(own, order);
    lemma_rest_position(own, order);
    lemma_add_resting_at(own, order, k);
    lemma_add_resting(own, order);
    let price = order.price;
    let id = order.id;
    let joined = k < own.len() && own[k].0 == price;
    let q = if joined { own[k].1.push(order) } else { seq![order] };
    assert(r[k] == (price, q));
    assert(level_at(r, price, k));
    let ci = choose|i: int| level_at(r, price, i);
    if ci < k {
        assert(ahead(side, r[ci].0, r[k].0));
    } else if ci > k {
        assert(ahead(side, r[k].0, r[ci].0));
    }
    assert(ci == k);
    let j = q.len() - 1;
    assert forall|m: int| 0 <= m < j implies q[m].id != id by {
        if joined {
            assert(q[m] == own[k].1[m]);
        }
    }
    assert(first_with_id(q, id, j));
    let cj = choose|m: int| first_with_id(q, id, m);
    assert(cj == j);
    let r2 = r.update(k, (price, q.remove(j)));
    assert(remove_first(r, price, id) == Some(r2));
    let (undone, verdict) = cancel_outcome(after, id);
    assert(undone == BookView { index: after.index.remove(id), ..with_ladder(after, side, r2) });
    assert(undone.index =~= book.index.remove(id));
    if joined {
        assert(q.remove(j) =~= own[k].1);
        assert(r2 =~= own);
    } else {
        assert(q.remove(j) =~= Seq::<Order>::empty());
        assert(r2 =~= own.subrange(0, k) + (seq![(price, Seq::<Order>::empty())] + own.skip(k)));
        lemma_empty_level_adds_nothing(own, k, price);
    }
}

proof fn lemma_fill_queue_ids(
    queue: Seq<Order>,
    remaining: u64,
    index: Map<u64, (Side, u64)>,
    taker: u64,
    ts: u64,
)
    ensures
        ({
            let f = fill_queue(queue, remaining, index, taker, ts);
            &&& sub_index(f.index, index)
            &&& forall|x: u64| #[trigger]
                f.index.contains_key(x) && has_id(queue, x) ==> has_id(f.kept, x)
        }),
    decreases queue.len(),
{
    let f = fill_queue(queue, remaining, index, taker, ts);
    if queue.len() == 0 || remaining == 0 {
    } else {
        let r = queue[0];
        let fill = if remaining <= r.quantity { remaining } else { r.quantity };
        let left = (r.quantity - fill) as u64;
        let tail = queue.drop_first();
        let rest_index = if left == 0 { index.remove(r.id) } else { index };
        lemma_fill_queue_ids(tail, (remaining - fill) as u64, rest_index, taker, ts);
        let rest = fill_queue(tail, (remaining - fill) as u64, rest_index, taker, ts);
        assert forall|x: u64| #[trigger]
            f.index.contains_key(x) && has_id(queue, x) implies has_id(f.kept, x) by {
            let m = choose|m: int| 0 <= m < queue.len() && (#[trigger] queue[m]).id == x;
            if left == 0 {
                assert(x != r.id);
                assert(m > 0);
                assert(tail[m - 1] == queue[m]);
                assert(has_id(tail, x));
            } else {
                if m == 0 {
                    assert(f.kept[0].id == x);
                } else {
                    assert(tail[m - 1] == queue[m]);
                    assert(has_id(tail, x));
                    let n = choose|n: int| 0 <= n < rest.kept.len() && (#[trigger] rest.kept[n]).id == x;
                    assert(f.kept[n + 1] == rest.kept[n]);
                }
            }
        }
    }
}

proof fn lemma_sweep_ids(
    ladder: Ladder,
    taker: Order,
    remaining: u64,
    index: Map<u64, (Side, u64)>,
    ts: u64,
)
    ensures
        ({
            let s = sweep(ladder, taker, remaining, index, ts);
            &&& sub_index(s.index, index)
            &&& forall|x: u64, i: int|
                s.index.contains_key(x) && 0 <= i < ladder.len() && #[trigger] has_id(
                    ladder[i].1,
                    x,
                ) ==> has_id(s.levels[i].1, x)
        }),
    decreases ladder.len(),
{
    let s = sweep(ladder, taker, remaining, index, ts);
    if ladder.len() == 0 || remaining == 0 || !crosses(taker.side, taker.price, ladder[0].0) {
    } else {
        let f = fill_queue(ladder[0].1, remaining, index, taker.id, ts);
        let tail = ladder.drop_first();
        lemma_fill_queue_ids(ladder[0].1, remaining, index, taker.id, ts);
        lemma_sweep_ids(tail, taker, f.remaining, f.index, ts);
        lemma_sweep(tail, taker, f.remaining, f.index, ts, taker.side);
        let rest = sweep(tail, taker, f.remaining, f.index, ts);
        assert forall|x: u64, i: int|
            s.index.contains_key(x) && 0 <= i < ladder.len() && #[trigger] has_id(
                ladder[i].1,
                x,
            ) implies has_id(s.levels[i].1, x) by {
            if i == 0 {
                assert(f.index.contains_key(x));
            } else {
                assert(tail[i - 1] == ladder[i]);
                assert(s.levels[i] == rest.levels[i - 1]);
            }
        }
    }
}

/// Queuing `o` keeps every resting order at the level where it was, and puts
/// `o` at the level of its price.
proof fn lemma_add_resting_ids(ladder: Ladder, o: Order)
    ensures
        ({
            let r = add_resting(ladder, o);
            &&& rests_in(r, o.price, o.id)
            &&& forall|price: u64, x: u64| #[trigger]
                rests_in(ladder, price, x) ==> rests_in(r, price, x)
        }),
{
    let k = rest_position(ladder, o);
    lemma_rest_position(ladder, o);
    lemma_add_resting_at(ladder, o, k);
    let r = add_resting(ladder, o);
    let joined = k < ladder.len() && ladder[k].0 == o.price;
    let q = if joined { ladder[k].1.push(o) } else { seq![o] };
    assert(r[k] == (o.price, q));
    assert(q[q.len() - 1] == o);
    assert(has_id(r[k].1, o.id));
    assert(level_at(r, o.price, k));
    assert forall|price: u64, x: u64| #[trigger] rests_in(ladder, price, x) implies rests_in(
        r,
        price,
        x,
    ) by {
        let i = choose|i: int| level_at(ladder, price, i) && has_id(#[trigger] ladder[i].1, x);
        let m = choose|m: int| 0 <= m < ladder[i].1.len() && (#[trigger] ladder[i].1[m]).id == x;
        if i < k {
            assert(r[i] == ladder[i]);
            assert(has_id(r[i].1, x));
            assert(level_at(r, price, i));
        } else if i == k && joined {
            assert(r[i].1[m] == ladder[i].1[m]);
            assert(has_id(r[i].1, x));
            assert(level_at(r, price, i));
        } else if joined {
            assert(r[i] == ladder[i]);
            assert(has_id(r[i].1, x));
            assert(level_at(r, price, i));
        } else {
            assert(r[i + 1] == ladder[i]);
            assert(has_id(r[i + 1].1, x));
            assert(level_at(r, price, i + 1));
        }
    }
}

/// Submitting keeps the index truthful: an id it knows still leads to a
/// resting order with that id where the index says.
pub proof fn law_submit_keeps_index_truthful(book: BookView, order: Order, ts: u64)
    requires
        book_wf(book),
        index_ok(book),
    ensures
        index_ok(submit_outcome(book, order, ts).0),
{
    let side = order.side;
    let opp = opposite(side);
    let other = side_ladder(book, opp);
    let own = side_ladder(book, side);
    let s = sweep(other, order, order.quantity, book.index, ts);
    lemma_sweep_ids(other, order, order.quantity, book.index, ts);
    lemma_sweep(other, order, order.quantity, book.index, ts, opp);
    let after = submit_outcome(book, order, ts).0;
    let resting = Order { quantity: s.remaining, ..order };
    if s.remaining > 0 {
        lemma_add_resting_ids(own, resting);
    }
    assert(side_ladder(after, opp) == s.levels);
    assert forall|id: u64| #[trigger] after.index.contains_key(id) implies rests_in(
        side_ladder(after, after.index[id].0),
        after.index[id].1,
        id,
    ) by {
        if s.remaining > 0 && id == order.id {
            assert(after.index[id] == (side, order.price));
        } else {
            assert(s.index.contains_key(id));
            assert(book.index.contains_key(id) && s.index[id] == book.index[id]);
            assert(after.index[id] == book.index[id]);
            let (sd, price) = book.index[id];
            assert(rests_in(side_ladder(book, sd), price, id));
            if sd == side {
                if s.remaining > 0 {
                    assert(rests_in(own, price, id));
                }
            } else {
                assert(sd == opp);
                let i = choose|i: int| level_at(other, price, i) && has_id(#[trigger] other[i].1, id);
                assert(has_id(s.levels[i].1, id));
                assert(level_at(s.levels, price, i));
            }
        }
    }
}

/// Cancelling keeps the index truthful.
pub proof fn law_cancel_keeps_index_truthful(book: BookView, id: u64)
    requires
        index_ok(book),
    ensures
        index_ok(cancel_outcome(book, id).0),
{
    let after = cancel_outcome(book, id).0;
    if book.index.contains_key(id) {
        let side = book.index[id].0;
        let price = book.index[id].1;
        let ladder = side_ladder(book, side);
        if let Some(l2) = remove_first(ladder, price, id) {
            let i = choose|i: int| level_at(ladder, price, i);
            let q = ladder[i].1;
            let j = choose|j: int| first_with_id(q, id, j);
            assert(l2 == ladder.update(i, (price, q.remove(j))));
            assert forall|x: u64| #[trigger] after.index.contains_key(x) implies rests_in(
                side_ladder(after, after.index[x].0),
                after.index[x].1,
                x,
            ) by {
                assert(x != id);
                assert(after.index[x] == book.index[x]);
                let (sd, p) = book.index[x];
                let lx = side_ladder(book, sd);
                let a = choose|a: int| level_at(lx, p, a) && has_id(#[trigger] lx[a].1, x);
                let m = choose|m: int| 0 <= m < lx[a].1.len() && (#[trigger] lx[a].1[m]).id == x;
                if sd == side && a == i {
                    assert(m != j);
                    let l = side_ladder(after, sd);
                    assert(l == l2);
                    if m < j {
                        assert(l[a].1[m] == q[m]);
                    } else {
                        assert(l[a].1[m - 1] == q[m]);
                    }
                    assert(has_id(l[a].1, x));
                    assert(level_at(l, p, a));
                } else {
                    assert(side_ladder(after, sd)[a] == lx[a]);
                    assert(has_id(side_ladder(after, sd)[a].1, x));
                    assert(level_at(side_ladder(after, sd), p, a));
                }
            }
        }
    }
}

proof fn lemma_first_with_id_exists(queue: Seq<Order>, id: u64, j: int)
    requires
        0 <= j < queue.len(),
        queue[j].id == id,
    ensures
        exists|k: int| first_with_id(queue, id, k),
    decreases j,
{
    if exists|k: int| 0 <= k < j && queue[k].id == id {
        let k = choose|k: int| 0 <= k < j && queue[k].id == id;
        lemma_first_with_id_exists(queue, id, k);
    } else {
        assert(first_with_id(queue, id, j));
    }
}

/// On a well-formed book whose index is truthful, a request to cancel an id
/// that the index knows always succeeds: the rejection "Matching trade not
/// found" never comes.
pub proof fn law_cancel_of_known_order_succeeds(book: BookView, id: u64)
    requires
        book_wf(book),
        index_ok(book),
        book.index.contains_key(id),
    ensures
        cancel_outcome(book, id).1 == CancelVerdict::Cancelled,
{
    let side = book.index[id].0;
    let price = book.index[id].1;
    let ladder = side_ladder(book, side);
    assert(rests_in(ladder, price, id));
    let i = choose|i: int| level_at(ladder, price, i) && has_id(#[trigger] ladder[i].1, id);
    let ci = choose|i: int| level_at(ladder, price, i);
    if ci < i {
        assert(ahead(side, ladder[ci].0, ladder[i].0));
    } else if ci > i {
        assert(ahead(side, ladder[i].0, ladder[ci].0));
    }
    let m = choose|m: int| 0 <= m < ladder[i].1.len() && (#[trigger] ladder[i].1[m]).id == id;
    lemma_first_with_id_exists(ladder[i].1, id, m);
}

/// Every trade reported while walking one queue whose orders are all limited
/// at `price` is at `price`.
proof fn lemma_fill_queue_prices(
    queue: Seq<Order>,
    remaining: u64,
    index: Map<u64, (Side, u64)>,
    taker: u64,
    ts: u64,
    price: u64,
)
    requires
        forall|j: int| 0 <= j < queue.len() ==> (#[trigger] queue[j]).price == price,
    ensures
        ({
            let f = fill_queue(queue, remaining, index, taker, ts);
            forall|k: int|
                0 <= k < f.events.len() ==> ((#[trigger] f.events[k]) matches Event::Trade {
                    price: p,
                    ..
                } ==> p == price)
        }),
    decreases queue.len(),
{
    if queue.len() == 0 || remaining == 0 {
    } else {
        let r = queue[0];
        let fill = if remaining <= r.quantity { remaining } else { r.quantity };
        let left = (r.quantity - fill) as u64;
        let tail = queue.drop_first();
        let rest_index = if left == 0 { index.remove(r.id) } else { index };
        assert forall|j: int| 0 <= j < tail.len() implies (#[trigger] tail[j]).price == price by {
            assert(tail[j] == queue[j + 1]);
        }
        lemma_fill_queue_prices(tail, (remaining - fill) as u64, rest_index, taker, ts, price);
        let f = fill_queue(queue, remaining, index, taker, ts);
        let rest = fill_queue(tail, (remaining - fill) as u64, rest_index, taker, ts);
        let head_len: int = if left == 0 { 2 } else { 1 };
        assert forall|k: int|
            0 <= k < f.events.len() implies ((#[trigger] f.events[k]) matches Event::Trade {
                price: p,
                ..
            } ==> p == price) by {
            if k >= head_len {
                assert(f.events[k] == rest.events[k - head_len]);
            }
        }
    }
}

/// Every trade reported while walking a ladder is at a price the taker's
/// limit allows.
proof fn lemma_sweep_prices(
    ladder: Ladder,
    taker: Order,
    remaining: u64,
    index: Map<u64, (Side, u64)>,
    ts: u64,
    side: Side,
)
    requires
        resting_ok(side, ladder),
    ensures
        ({
            let s = sweep(ladder, taker, remaining, index, ts);
            forall|k: int|
                0 <= k < s.events.len() ==> ((#[trigger] s.events[k]) matches Event::Trade {
                    price: p,
                    ..
                } ==> crosses(taker.side, taker.price, p))
        }),
    decreases ladder.len(),
{
    if ladder.len() == 0 || remaining == 0 || !crosses(taker.side, taker.price, ladder[0].0) {
    } else {
        let q = ladder[0].1;
        let f = fill_queue(q, remaining, index, taker.id, ts);
        let tail = ladder.drop_first();
        assert forall|j: int| 0 <= j < q.len() implies (#[trigger] q[j]).price == ladder[0].0 by {
            assert(rests_at(ladder[0].1[j], side, ladder[0].0));
        }
        lemma_fill_queue_prices(q, remaining, index, taker.id, ts, ladder[0].0);
        assert(resting_ok(side, tail)) by {
            assert forall|i: int, j: int|
                0 <= i < tail.len() && 0 <= j < tail[i].1.len() implies rests_at(
                #[trigger] tail[i].1[j],
                side,
                tail[i].0,
            ) by {
                assert(tail[i] == ladder[i + 1]);
            }
        }
        lemma_sweep_prices(tail, taker, f.remaining, f.index, ts, side);
        let s = sweep(ladder, taker, remaining, index, ts);
        let rest = sweep(tail, taker, f.remaining, f.index, ts);
        assert forall|k: int|
            0 <= k < s.events.len() implies ((#[trigger] s.events[k]) matches Event::Trade {
                price: p,
                ..
            } ==> crosses(taker.side, taker.price, p)) by {
            if k < f.events.len() {
                assert(s.events[k] == f.events[k]);
            } else {
                assert(s.events[k] == rest.events[k - f.events.len()]);
            }
        }
    }
}

/// A submitted order never trades through its limit: every trade it reports
/// is at a price no higher than its limit for a buy, no lower for a sell.
pub proof fn law_trades_respect_limit(book: BookView, order: Order, ts: u64)
    requires
        book_wf(book),
    ensures
        ({
            let events = submit_outcome(book, order, ts).1;
            forall|k: int|
                0 <= k < events.len() ==> ((#[trigger] events[k]) matches Event::Trade {
                    price: p,
                    ..
                } ==> crosses(order.side, order.price, p))
        }),
{
    let opp = opposite(order.side);
    let ladder = side_ladder(book, opp);
    lemma_sweep_prices(ladder, order, order.quantity, book.index, ts, opp);
    let s = sweep(ladder, order, order.quantity, book.index, ts);
    let events = submit_outcome(book, order, ts).1;
    assert forall|k: int|
        0 <= k < events.len() implies ((#[trigger] events[k]) matches Event::Trade {
            price: p,
            ..
        } ==> crosses(order.side, order.price, p)) by {
        if 1 <= k < 1 + s.events.len() {
            assert(events[k] == s.events[k - 1]);
        }
    }
}

/// Every order resting in `ladder` is in `index`, recorded under `side` and
/// the price of its level.
pub open spec fn ladder_indexed(side: Side, ladder: Ladder, index: Map<u64, (Side, u64)>) -> bool {
    forall|i: int, j: int|
        #![trigger ladder[i].1[j]]
        0 <= i < ladder.len() && 0 <= j < ladder[i].1.len() ==> index.contains_key(ladder[i].1[j].id)
            && index[ladder[i].1[j].id] == (side, ladder[i].0)
}

/// No two orders in `queue` share an id.
pub open spec fn queue_ids_distinct(queue: Seq<Order>) -> bool {
    forall|a: int, b: int| 0 <= a < b < queue.len() ==> (#[trigger] queue[a]).id != (#[trigger] queue[b]).id
}

/// No queue of `ladder` holds an id twice.
pub open spec fn ladder_ids_distinct(ladder: Ladder) -> bool {
    forall|i: int| 0 <= i < ladder.len() ==> queue_ids_distinct(#[trigger] ladder[i].1)
}

/// Every resting order is in the index, recorded where it rests, and no
/// queue holds an id twice: what a book built with distinct order ids keeps.
pub open spec fn index_complete(book: BookView) -> bool {
    &&& ladder_indexed(Side::Buy, book.bids, book.index)
    &&& ladder_indexed(Side::Sell, book.asks, book.index)
    &&& ladder_ids_distinct(book.bids)
    &&& ladder_ids_distinct(book.asks)
}

/// Some order with id `id` rests in `ladder`.
pub open spec fn rests_on(ladder: Ladder, id: u64) -> bool {
    exists|i: int| 0 <= i < ladder.len() && has_id(#[trigger] ladder[i].1, id)
}

/// Some order with id `id` rests in the book, on either side.
pub open spec fn resting_anywhere(book: BookView, id: u64) -> bool {
    rests_on(book.bids, id) || rests_on(book.asks, id)
}

/// `a` and `b` agree on the key `x`.
pub open spec fn agree_at(a: Map<u64, (Side, u64)>, b: Map<u64, (Side, u64)>, x: u64) -> bool {
    &&& a.contains_key(x) == b.contains_key(x)
    &&& b.contains_key(x) ==> a[x] == b[x]
}

proof fn lemma_fill_queue_indexed(
    queue: Seq<Order>,
    remaining: u64,
    index: Map<u64, (Side, u64)>,
    taker: u64,
    ts: u64,
    side: Side,
    price: u64,
)
    requires
        forall|j: int|
            0 <= j < queue.len() ==> index.contains_key((#[trigger] queue[j]).id) && index[queue[j].id]
                == (side, price),
        queue_ids_distinct(queue),
    ensures
        ({
            let f = fill_queue(queue, remaining, index, taker, ts);
            &&& forall|x: u64| !has_id(queue, x) ==> #[trigger] agree_at(f.index, index, x)
            &&& forall|m: int|
                0 <= m < f.kept.len() ==> f.index.contains_key((#[trigger] f.kept[m]).id)
                    && f.index[f.kept[m].id] == (side, price) && has_id(queue, f.kept[m].id)
            &&& queue_ids_distinct(f.kept)
        }),
    decreases queue.len(),
{
    let f = fill_queue(queue, remaining, index, taker, ts);
    if queue.len() == 0 || remaining == 0 {
        assert forall|m: int| 0 <= m < f.kept.len() implies has_id(queue, (#[trigger] f.kept[m]).id) by {
            assert(queue[m] == f.kept[m]);
        }
    } else {
        let r = queue[0];
        let fill = if remaining <= r.quantity { remaining } else { r.quantity };
        let left = (r.quantity - fill) as u64;
        let tail = queue.drop_first();
        let rest_index = if left == 0 { index.remove(r.id) } else { index };
        assert forall|j: int| 0 <= j < tail.len() implies (#[trigger] tail[j]).id != r.id && tail[j]
            == queue[j + 1] by {
            assert(queue[0].id != queue[j + 1].id);
        }
        assert forall|a: int, b: int| 0 <= a < b < tail.len() implies (#[trigger] tail[a]).id != (
        #[trigger] tail[b]).id by {
            assert(queue[a + 1].id != queue[b + 1].id);
        }
        assert forall|j: int| 0 <= j < tail.len() implies rest_index.contains_key(
            (#[trigger] tail[j]).id,
        ) && rest_index[tail[j].id] == (side, price) by {
            assert(tail[j] == queue[j + 1]);
        }
        lemma_fill_queue_indexed(tail, (remaining - fill) as u64, rest_index, taker, ts, side, price);
        let rest = fill_queue(tail, (remaining - fill) as u64, rest_index, taker, ts);
        assert forall|x: u64| !has_id(queue, x) implies #[trigger] agree_at(f.index, index, x) by {
            assert(queue[0] == r);
            assert(x != r.id);
            if has_id(tail, x) {
                let j = choose|j: int| 0 <= j < tail.len() && (#[trigger] tail[j]).id == x;
                assert(queue[j + 1].id == x);
            }
            assert(agree_at(rest.index, rest_index, x));
        }
        assert forall|y: u64| has_id(tail, y) implies has_id(queue, y) by {
            let j = choose|j: int| 0 <= j < tail.len() && (#[trigger] tail[j]).id == y;
            assert(queue[j + 1].id == y);
        }
        assert(!has_id(tail, r.id));
        if left != 0 {
            assert(agree_at(rest.index, rest_index, r.id));
            assert forall|m: int| 0 <= m < f.kept.len() implies f.index.contains_key(
                (#[trigger] f.kept[m]).id,
            ) && f.index[f.kept[m].id] == (side, price) && has_id(queue, f.kept[m].id) by {
                if m == 0 {
                    assert(f.kept[0].id == r.id);
                    assert(queue[0].id == r.id);
                } else {
                    assert(f.kept[m] == rest.kept[m - 1]);
                }
            }
            assert forall|a: int, b: int| 0 <= a < b < f.kept.len() implies (#[trigger] f.kept[a]).id
                != (#[trigger] f.kept[b]).id by {
                assert(f.kept[b] == rest.kept[b - 1]);
                if a > 0 {
                    assert(f.kept[a] == rest.kept[a - 1]);
                } else {
                    assert(has_id(tail, rest.kept[b - 1].id));
                }
            }
        }
    }
}

proof fn lemma_sweep_indexed(
    ladder: Ladder,
    taker: Order,
    remaining: u64,
    index: Map<u64, (Side, u64)>,
    ts: u64,
    side: Side,
)
    requires
        ladder_indexed(side, ladder, index),
        ladder_ids_distinct(ladder),
        sorted_ladder(side, ladder),
    ensures
        ({
            let s = sweep(ladder, taker, remaining, index, ts);
            &&& ladder_indexed(side, s.levels, s.index)
            &&& ladder_ids_distinct(s.levels)
            &&& forall|x: u64| !rests_on(ladder, x) ==> #[trigger] agree_at(s.index, index, x)
            &&& forall|x: u64| rests_on(s.levels, x) ==> #[trigger] rests_on(ladder, x)
        }),
    decreases ladder.len(),
{
    let s = sweep(ladder, taker, remaining, index, ts);
    lemma_sweep(ladder, taker, remaining, index, ts, side);
    if ladder.len() == 0 || remaining == 0 || !crosses(taker.side, taker.price, ladder[0].0) {
    } else {
        let q = ladder[0].1;
        let f = fill_queue(q, remaining, index, taker.id, ts);
        let tail = ladder.drop_first();
        assert forall|j: int| 0 <= j < q.len() implies index.contains_key((#[trigger] q[j]).id)
            && index[q[j].id] == (side, ladder[0].0) by {
            assert(q[j] == ladder[0].1[j]);
        }
        assert(queue_ids_distinct(ladder[0].1));
        lemma_fill_queue_indexed(q, remaining, index, taker.id, ts, side, ladder[0].0);
        // No id of a later level rests in the first.
        assert forall|i: int, y: u64| 0 <= i < tail.len() && #[trigger] has_id(tail[i].1, y) implies !has_id(q, y) by {
            let j = choose|j: int| 0 <= j < tail[i].1.len() && (#[trigger] tail[i].1[j]).id == y;
            assert(tail[i] == ladder[i + 1]);
            assert(index[ladder[i + 1].1[j].id] == (side, ladder[i + 1].0));
            if has_id(q, y) {
                let k = choose|k: int| 0 <= k < q.len() && (#[trigger] q[k]).id == y;
                assert(index[ladder[0].1[k].id] == (side, ladder[0].0));
                assert(ahead(side, ladder[0].0, ladder[i + 1].0));
            }
        }
        assert(ladder_indexed(side, tail, f.index)) by {
            assert forall|i: int, j: int|
                #![trigger tail[i].1[j]]
                0 <= i < tail.len() && 0 <= j < tail[i].1.len() implies f.index.contains_key(
                    tail[i].1[j].id,
                ) && f.index[tail[i].1[j].id] == (side, tail[i].0) by {
                assert(tail[i] == ladder[i + 1]);
                assert(has_id(tail[i].1, tail[i].1[j].id));
                assert(agree_at(f.index, index, tail[i].1[j].id));
                assert(index[ladder[i + 1].1[j].id] == (side, ladder[i + 1].0));
            }
        }
        assert(ladder_ids_distinct(tail)) by {
            assert forall|i: int| 0 <= i < tail.len() implies queue_ids_distinct(#[trigger] tail[i].1) by {
                assert(tail[i] == ladder[i + 1]);
            }
        }
        assert(sorted_ladder(side, tail)) by {
            assert forall|i: int, j: int| 0 <= i < j < tail.len() implies ahead(
                side,
                #[trigger] tail[i].0,
                #[trigger] tail[j].0,
            ) by {
                assert(tail[i] == ladder[i + 1] && tail[j] == ladder[j + 1]);
            }
        }
        lemma_sweep_indexed(tail, taker, f.remaining, f.index, ts, side);
        let rest = sweep(tail, taker, f.remaining, f.index, ts);
        assert forall|y: u64| has_id(q, y) implies !rests_on(tail, y) by {
            if rests_on(tail, y) {
                let i = choose|i: int| 0 <= i < tail.len() && has_id(#[trigger] tail[i].1, y);
            }
        }
        assert forall|i: int| 0 < i < s.levels.len() implies s.levels[i] == rest.levels[i - 1] by {}
        assert(ladder_indexed(side, s.levels, s.index)) by {
            assert forall|i: int, j: int|
                #![trigger s.levels[i].1[j]]
                0 <= i < s.levels.len() && 0 <= j < s.levels[i].1.len() implies s.index.contains_key(
                    s.levels[i].1[j].id,
                ) && s.index[s.levels[i].1[j].id] == (side, s.levels[i].0) by {
                if i == 0 {
                    let y = f.kept[j].id;
                    assert(s.levels[0].1[j] == f.kept[j]);
                    assert(has_id(q, y));
                    assert(agree_at(rest.index, f.index, y));
                } else {
                    assert(s.levels[i] == rest.levels[i - 1]);
                    assert(rest.levels[i - 1].1[j] == s.levels[i].1[j]);
                }
            }
        }
        assert(ladder_ids_distinct(s.levels)) by {
            assert forall|i: int| 0 <= i < s.levels.len() implies queue_ids_distinct(#[trigger] s.levels[i].1) by {
                if i > 0 {
                    assert(s.levels[i] == rest.levels[i - 1]);
                }
            }
        }
        assert forall|x: u64| !rests_on(ladder, x) implies #[trigger] agree_at(s.index, index, x) by {
            if has_id(q, x) {
                assert(has_id(ladder[0].1, x));
            }
            if rests_on(tail, x) {
                let i = choose|i: int| 0 <= i < tail.len() && has_id(#[trigger] tail[i].1, x);
                assert(tail[i] == ladder[i + 1]);
                assert(has_id(ladder[i + 1].1, x));
            }
            assert(agree_at(f.index, index, x));
            assert(agree_at(rest.index, f.index, x));
        }
        assert forall|x: u64| rests_on(s.levels, x) implies #[trigger] rests_on(ladder, x) by {
            let i = choose|i: int| 0 <= i < s.levels.len() && has_id(#[trigger] s.levels[i].1, x);
            if i == 0 {
                let m = choose|m: int| 0 <= m < s.levels[0].1.len() && (#[trigger] s.levels[0].1[m]).id == x;
                assert(s.levels[0].1[m] == f.kept[m]);
                assert(has_id(ladder[0].1, x));
            } else {
                assert(s.levels[i] == rest.levels[i - 1]);
                assert(rests_on(rest.levels, x));
                assert(rests_on(tail, x));
                let k = choose|k: int| 0 <= k < tail.len() && has_id(#[trigger] tail[k].1, x);
                assert(tail[k] == ladder[k + 1]);
                assert(has_id(ladder[k + 1].1, x));
            }
        }
    }
}

proof fn lemma_add_resting_indexed(ladder: Ladder, o: Order, index: Map<u64, (Side, u64)>)
    requires
        ladder_indexed(o.side, ladder, index),
        ladder_ids_distinct(ladder),
        !rests_on(ladder, o.id),
        index.contains_key(o.id),
        index[o.id] == (o.side, o.price),
    ensures
        ladder_indexed(o.side, add_resting(ladder, o), index),
        ladder_ids_distinct(add_resting(ladder, o)),
    decreases ladder.len(),
{
    let r = add_resting(ladder, o);
    if ladder.len() == 0 {
    } else if ladder[0].0 == o.price {
        let q = ladder[0].1;
        assert forall|a: int| 0 <= a < q.len() implies (#[trigger] q[a]).id != o.id by {
            if q[a].id == o.id {
                assert(has_id(ladder[0].1, o.id));
            }
        }
        assert forall|i: int| 0 < i < r.len() implies r[i] == ladder[i] by {}
        assert(ladder_indexed(o.side, r, index)) by {
            assert forall|i: int, j: int|
                #![trigger r[i].1[j]]
                0 <= i < r.len() && 0 <= j < r[i].1.len() implies index.contains_key(r[i].1[j].id)
                    && index[r[i].1[j].id] == (o.side, r[i].0) by {
                if i == 0 && j < q.len() {
                    assert(r[0].1[j] == ladder[0].1[j]);
                } else if i > 0 {
                    assert(r[i] == ladder[i]);
                    assert(r[i].1[j] == ladder[i].1[j]);
                }
            }
        }
        assert(ladder_ids_distinct(r)) by {
            assert forall|i: int| 0 <= i < r.len() implies queue_ids_distinct(#[trigger] r[i].1) by {
                if i == 0 {
                    assert(queue_ids_distinct(q));
                    assert forall|a: int, b: int| 0 <= a < b < r[0].1.len() implies (
                    #[trigger] r[0].1[a]).id != (#[trigger] r[0].1[b]).id by {
                        assert(r[0].1[a] == q[a]);
                        if b < q.len() {
                            assert(r[0].1[b] == q[b]);
                        }
                    }
                } else {
                    assert(r[i] == ladder[i]);
                }
            }
        }
    } else if ahead(o.side, o.price, ladder[0].0) {
        assert forall|i: int| 0 < i < r.len() implies r[i] == ladder[i - 1] by {}
        assert(ladder_indexed(o.side, r, index)) by {
            assert forall|i: int, j: int|
                #![trigger r[i].1[j]]
                0 <= i < r.len() && 0 <= j < r[i].1.len() implies index.contains_key(r[i].1[j].id)
                    && index[r[i].1[j].id] == (o.side, r[i].0) by {
                if i > 0 {
                    assert(r[i] == ladder[i - 1]);
                    assert(r[i].1[j] == ladder[i - 1].1[j]);
                }
            }
        }
        assert(ladder_ids_distinct(r)) by {
            assert forall|i: int| 0 <= i < r.len() implies queue_ids_distinct(#[trigger] r[i].1) by {
                if i > 0 {
                    assert(r[i] == ladder[i - 1]);
                }
            }
        }
    } else {
        let tail = ladder.drop_first();
        assert(ladder_indexed(o.side, tail, index)) by {
            assert forall|i: int, j: int|
                #![trigger tail[i].1[j]]
                0 <= i < tail.len() && 0 <= j < tail[i].1.len() implies index.contains_key(
                    tail[i].1[j].id,
                ) && index[tail[i].1[j].id] == (o.side, tail[i].0) by {
                assert(tail[i] == ladder[i + 1]);
                assert(tail[i].1[j] == ladder[i + 1].1[j]);
            }
        }
        assert(ladder_ids_distinct(tail)) by {
            assert forall|i: int| 0 <= i < tail.len() implies queue_ids_distinct(#[trigger] tail[i].1) by {
                assert(tail[i] == ladder[i + 1]);
            }
        }
        assert(!rests_on(tail, o.id)) by {
            if rests_on(tail, o.id) {
                let i = choose|i: int| 0 <= i < tail.len() && has_id(#[trigger] tail[i].1, o.id);
                assert(tail[i] == ladder[i + 1]);
                assert(has_id(ladder[i + 1].1, o.id));
            }
        }
        lemma_add_resting_indexed(tail, o, index);
        let rt = add_resting(tail, o);
        assert forall|i: int| 0 < i < r.len() implies r[i] == rt[i - 1] by {}
        assert(ladder_indexed(o.side, r, index)) by {
            assert forall|i: int, j: int|
                #![trigger r[i].1[j]]
                0 <= i < r.len() && 0 <= j < r[i].1.len() implies index.contains_key(r[i].1[j].id)
                    && index[r[i].1[j].id] == (o.side, r[i].0) by {
                if i > 0 {
                    assert(r[i] == rt[i - 1]);
                    assert(r[i].1[j] == rt[i - 1].1[j]);
                } else {
                    assert(r[0].1[j] == ladder[0].1[j]);
                }
            }
        }
        assert(ladder_ids_distinct(r)) by {
            assert forall|i: int| 0 <= i < r.len() implies queue_ids_distinct(#[trigger] r[i].1) by {
                if i > 0 {
                    assert(r[i] == rt[i - 1]);
                }
            }
        }
    }
}

/// The orders of `ladder` are in `index` as they were in `old_index`, where
/// the two agree on every id resting in `ladder`.
proof fn lemma_ladder_indexed_transfer(
    side: Side,
    ladder: Ladder,
    old_index: Map<u64, (Side, u64)>,
    index: Map<u64, (Side, u64)>,
)
    requires
        ladder_indexed(side, ladder, old_index),
        forall|x: u64| rests_on(ladder, x) ==> #[trigger] agree_at(index, old_index, x),
    ensures
        ladder_indexed(side, ladder, index),
{
    assert forall|i: int, j: int|
        #![trigger ladder[i].1[j]]
        0 <= i < ladder.len() && 0 <= j < ladder[i].1.len() implies index.contains_key(
            ladder[i].1[j].id,
        ) && index[ladder[i].1[j].id] == (side, ladder[i].0) by {
        assert(has_id(ladder[i].1, ladder[i].1[j].id));
        assert(rests_on(ladder, ladder[i].1[j].id));
        assert(agree_at(index, old_index, ladder[i].1[j].id));
    }
}

/// An id resting on one side of an index-complete book does not rest on the
/// other.
proof fn lemma_sides_apart(book: BookView, x: u64)
    requires
        index_complete(book),
    ensures
        !(rests_on(book.bids, x) && rests_on(book.asks, x)),
{
    if rests_on(book.bids, x) && rests_on(book.asks, x) {
        let i = choose|i: int| 0 <= i < book.bids.len() && has_id(#[trigger] book.bids[i].1, x);
        let j = choose|j: int| 0 <= j < book.bids[i].1.len() && (#[trigger] book.bids[i].1[j]).id == x;
        let a = choose|a: int| 0 <= a < book.asks.len() && has_id(#[trigger] book.asks[a].1, x);
        let b = choose|b: int| 0 <= b < book.asks[a].1.len() && (#[trigger] book.asks[a].1[b]).id == x;
        assert(book.index[book.bids[i].1[j].id] == (Side::Buy, book.bids[i].0));
        assert(book.index[book.asks[a].1[b].id] == (Side::Sell, book.asks[a].0));
    }
}

/// With order ids kept distinct, submitting keeps the index complete: an
/// order whose id rests nowhere in the book leaves every resting order
/// recorded in the index where it rests, itself included if it rests.
pub proof fn law_submit_keeps_index_complete(book: BookView, order: Order, ts: u64)
    requires
        book_wf(book),
        index_complete(book),
        !resting_anywhere(book, order.id),
    ensures
        index_complete(submit_outcome(book, order, ts).0),
{
    let side = order.side;
    let opp = opposite(side);
    let other = side_ladder(book, opp);
    let own = side_ladder(book, side);
    let s = sweep(other, order, order.quantity, book.index, ts);
    lemma_sweep_indexed(other, order, order.quantity, book.index, ts, opp);
    let after = submit_outcome(book, order, ts).0;
    assert forall|x: u64| rests_on(own, x) implies #[trigger] agree_at(s.index, book.index, x) by {
        lemma_sides_apart(book, x);
    }
    lemma_ladder_indexed_transfer(side, own, book.index, s.index);
    if s.remaining > 0 {
        let resting = Order { quantity: s.remaining, ..order };
        let i3 = s.index.insert(order.id, (side, order.price));
        assert forall|x: u64| rests_on(own, x) implies #[trigger] agree_at(i3, s.index, x) by {
            assert(x != order.id);
        }
        lemma_ladder_indexed_transfer(side, own, s.index, i3);
        assert forall|x: u64| rests_on(s.levels, x) implies #[trigger] agree_at(i3, s.index, x) by {
            assert(rests_on(other, x));
            assert(x != order.id);
        }
        lemma_ladder_indexed_transfer(opp, s.levels, s.index, i3);
        lemma_add_resting_indexed(own, resting, i3);
    }
}

/// Cancelling keeps the index complete.
pub proof fn law_cancel_keeps_index_complete(book: BookView, id: u64)
    requires
        book_wf(book),
        index_complete(book),
    ensures
        index_complete(cancel_outcome(book, id).0),
{
    if book.index.contains_key(id) {
        let side = book.index[id].0;
        let price = book.index[id].1;
        let ladder = side_ladder(book, side);
        if let Some(l2) = remove_first(ladder, price, id) {
            let i = choose|i: int| level_at(ladder, price, i);
            let q = ladder[i].1;
            let j = choose|j: int| first_with_id(q, id, j);
            assert(l2 == ladder.update(i, (price, q.remove(j))));
            let idx2 = book.index.remove(id);
            let after = cancel_outcome(book, id).0;
            // Every order left in the book carries another id than `id`.
            assert forall|x: u64| rests_on(l2, x) implies #[trigger] agree_at(idx2, book.index, x) by {
                let a = choose|a: int| 0 <= a < l2.len() && has_id(#[trigger] l2[a].1, x);
                let m = choose|m: int| 0 <= m < l2[a].1.len() && (#[trigger] l2[a].1[m]).id == x;
                if x == id {
                    if a == i {
                        let n = if m < j { m } else { m + 1 };
                        assert(l2[a].1[m] == q[n]);
                        assert(n != j);
                        assert(q[n].id == id);
                        assert(queue_ids_distinct(ladder[i].1));
                        if n < j {
                            assert(q[n].id != id);
                        } else {
                            assert(q[j].id != q[n].id);
                        }
                    } else {
                        assert(l2[a] == ladder[a]);
                        assert(ladder[a].1[m].id == id);
                        assert(book.index[ladder[a].1[m].id] == (side, ladder[a].0));
                        if a < i {
                            assert(ahead(side, ladder[a].0, ladder[i].0));
                        } else {
                            assert(ahead(side, ladder[i].0, ladder[a].0));
                        }
                    }
                }
            }
            let other = side_ladder(book, opposite(side));
            assert forall|x: u64| rests_on(other, x) implies #[trigger] agree_at(idx2, book.index, x) by {
                if x == id {
                    let a = choose|a: int| 0 <= a < other.len() && has_id(#[trigger] other[a].1, x);
                    let m = choose|m: int| 0 <= m < other[a].1.len() && (#[trigger] other[a].1[m]).id == x;
                    assert(book.index[other[a].1[m].id] == (opposite(side), other[a].0));
                }
            }
            // What stays of the book was indexed before.
            assert(ladder_indexed(side, l2, book.index)) by {
                assert forall|a: int, m: int|
                    #![trigger l2[a].1[m]]
                    0 <= a < l2.len() && 0 <= m < l2[a].1.len() implies book.index.contains_key(
                        l2[a].1[m].id,
                    ) && book.index[l2[a].1[m].id] == (side, l2[a].0) by {
                    if a == i {
                        let n = if m < j { m } else { m + 1 };
                        assert(l2[a].1[m] == ladder[i].1[n]);
                    } else {
                        assert(l2[a].1[m] == ladder[a].1[m]);
                    }
                }
            }
            lemma_ladder_indexed_transfer(side, l2, book.index, idx2);
            lemma_ladder_indexed_transfer(opposite(side), other, book.index, idx2);
            assert(ladder_ids_distinct(l2)) by {
                assert forall|a: int| 0 <= a < l2.len() implies queue_ids_distinct(#[trigger] l2[a].1) by {
                    if a == i {
                        assert(queue_ids_distinct(q));
                        assert forall|u: int, v: int| 0 <= u < v < l2[a].1.len() implies (
                        #[trigger] l2[a].1[u]).id != (#[trigger] l2[a].1[v]).id by {
                            let nu = if u < j { u } else { u + 1 };
                            let nv = if v < j { v } else { v + 1 };
                            assert(l2[a].1[u] == q[nu]);
                            assert(l2[a].1[v] == q[nv]);
                        }
                    } else {
                        assert(l2[a] == ladder[a]);
                    }
                }
            }
            match side {
                Side::Buy => {
                    assert(after.bids == l2 && after.asks == other && after.index == idx2);
                },
                Side::Sell => {
                    assert(after.asks == l2 && after.bids == other && after.index == idx2);
                },
            }
        }
    }
}

/// On a well-formed book whose index is truthful and complete (what a book
/// built with distinct order ids keeps), a cancel request succeeds exactly
/// when an order with that id rests in the book, and is otherwise rejected
/// with "Order not found"; "Matching trade not found" never comes.
pub proof fn law_cancel_succeeds_exactly_for_resting_orders(book: BookView, id: u64)
    requires
        book_wf(book),
        index_ok(book),
        index_complete(book),
    ensures
        (cancel_outcome(book, id).1 == CancelVerdict::Cancelled) <==> resting_anywhere(book, id),
        !resting_anywhere(book, id) ==> cancel_outcome(book, id).1 == CancelVerdict::UnknownOrder,
{
    if resting_anywhere(book, id) {
        if rests_on(book.bids, id) {
            let i = choose|i: int| 0 <= i < book.bids.len() && has_id(#[trigger] book.bids[i].1, id);
            let m = choose|m: int| 0 <= m < book.bids[i].1.len() && (#[trigger] book.bids[i].1[m]).id == id;
            assert(book.index.contains_key(book.bids[i].1[m].id));
        } else {
            let i = choose|i: int| 0 <= i < book.asks.len() && has_id(#[trigger] book.asks[i].1, id);
            let m = choose|m: int| 0 <= m < book.asks[i].1.len() && (#[trigger] book.asks[i].1[m]).id == id;
            assert(book.index.contains_key(book.asks[i].1[m].id));
        }
        law_cancel_of_known_order_succeeds(book, id);
    } else {
        if book.index.contains_key(id) {
            let side = book.index[id].0;
            let price = book.index[id].1;
            let ladder = side_ladder(book, side);
            assert(rests_in(ladder, price, id));
            let i = choose|i: int| level_at(ladder, price, i) && has_id(#[trigger] ladder[i].1, id);
            match side {
                Side::Buy => {
                    assert(rests_on(book.bids, id));
                },
                Side::Sell => {
                    assert(rests_on(book.asks, id));
                },
            }
        }
    }
}

/// `after` is `before` less its first `n` orders, the first order left (if
/// any) being the next one of `before` with no more quantity than it had, and
/// every other order left unchanged and in its place in line.
pub open spec fn priority_tail(before: Seq<Order>, after: Seq<Order>, n: int) -> bool {
    &&& 0 <= n <= before.len()
    &&& after.len() == before.len() - n
    &&& forall|k: int| 1 <= k < after.len() ==> #[trigger] after[k] == before[n + k]
    &&& after.len() > 0 ==> {
        &&& after[0] == (Order { quantity: after[0].quantity, ..before[n] })
        &&& after[0].quantity <= before[n].quantity
    }
}

/// `after` is what time priority allows a queue `before` to become when
/// orders trade against it: the oldest orders leave first, and only the oldest
/// order left may have been partly filled, keeping its place at the front.
pub open spec fn keeps_time_priority(before: Seq<Order>, after: Seq<Order>) -> bool {
    exists|n: int| priority_tail(before, after, n)
}

proof fn lemma_fill_queue_priority(
    queue: Seq<Order>,
    remaining: u64,
    index: Map<u64, (Side, u64)>,
    taker: u64,
    ts: u64,
) -> (n: int)
    ensures
        priority_tail(queue, fill_queue(queue, remaining, index, taker, ts).kept, n),
    decreases queue.len(),
{
    let f = fill_queue(queue, remaining, index, taker, ts);
    if queue.len() == 0 || remaining == 0 {
        if queue.len() > 0 {
            assert(f.kept[0] == (Order { quantity: f.kept[0].quantity, ..queue[0] }));
        }
        0
    } else {
        let r = queue[0];
        let fill = if remaining <= r.quantity { remaining } else { r.quantity };
        let left = (r.quantity - fill) as u64;
        let tail = queue.drop_first();
        let rest_index = if left == 0 { index.remove(r.id) } else { index };
        let rest = fill_queue(tail, (remaining - fill) as u64, rest_index, taker, ts);
        if left == 0 {
            let m = lemma_fill_queue_priority(tail, (remaining - fill) as u64, rest_index, taker, ts);
            assert forall|k: int| 1 <= k < f.kept.len() implies #[trigger] f.kept[k] == queue[m + 1 + k] by {
                assert(rest.kept[k] == tail[m + k]);
            }
            if f.kept.len() > 0 {
                assert(tail[m] == queue[m + 1]);
            }
            m + 1
        } else {
            assert(remaining - fill == 0);
            assert(rest.kept == tail);
            assert forall|k: int| 1 <= k < f.kept.len() implies #[trigger] f.kept[k] == queue[0 + k] by {
                assert(f.kept[k] == rest.kept[k - 1]);
                assert(tail[k - 1] == queue[k]);
            }
            0
        }
    }
}

proof fn lemma_sweep_priority(
    ladder: Ladder,
    taker: Order,
    remaining: u64,
    index: Map<u64, (Side, u64)>,
    ts: u64,
)
    ensures
        ({
            let s = sweep(ladder, taker, remaining, index, ts);
            forall|i: int|
                0 <= i < ladder.len() ==> keeps_time_priority(
                    #[trigger] ladder[i].1,
                    s.levels[i].1,
                )
        }),
    decreases ladder.len(),
{
    let s = sweep(ladder, taker, remaining, index, ts);
    lemma_sweep(ladder, taker, remaining, index, ts, taker.side);
    if ladder.len() == 0 || remaining == 0 || !crosses(taker.side, taker.price, ladder[0].0) {
        assert forall|i: int| 0 <= i < ladder.len() implies keeps_time_priority(
            #[trigger] ladder[i].1,
            s.levels[i].1,
        ) by {
            let q = ladder[i].1;
            if q.len() > 0 {
                assert(q[0] == (Order { quantity: q[0].quantity, ..q[0] }));
            }
            assert(priority_tail(q, q, 0));
        }
    } else {
        let f = fill_queue(ladder[0].1, remaining, index, taker.id, ts);
        let tail = ladder.drop_first();
        let rest = sweep(tail, taker, f.remaining, f.index, ts);
        let n0 = lemma_fill_queue_priority(ladder[0].1, remaining, index, taker.id, ts);
        lemma_sweep_priority(tail, taker, f.remaining, f.index, ts);
        assert forall|i: int| 0 <= i < ladder.len() implies keeps_time_priority(
            #[trigger] ladder[i].1,
            s.levels[i].1,
        ) by {
            if i == 0 {
                assert(s.levels[0].1 == f.kept);
                assert(priority_tail(ladder[0].1, s.levels[0].1, n0));
            } else {
                assert(s.levels[i] == rest.levels[i - 1]);
                assert(ladder[i] == tail[i - 1]);
                assert(keeps_time_priority(tail[i - 1].1, rest.levels[i - 1].1));
            }
        }
    }
}

/// Price-time priority on the side an order trades against: submitting it
/// leaves every level of the other side at its price, each queue reduced only
/// by its oldest orders, the oldest order left at most partly filled and
/// still first, and all the others untouched and in their order.
pub proof fn law_submit_keeps_time_priority(book: BookView, order: Order, ts: u64)
    ensures
        ({
            let opp = opposite(order.side);
            let before = side_ladder(book, opp);
            let after = side_ladder(submit_outcome(book, order, ts).0, opp);
            &&& after.len() == before.len()
            &&& forall|i: int|
                0 <= i < before.len() ==> (#[trigger] after[i]).0 == before[i].0
                    && keeps_time_priority(before[i].1, after[i].1)
        }),
{
    let opp = opposite(order.side);
    let before = side_ladder(book, opp);
    let s = sweep(before, order, order.quantity, book.index, ts);
    lemma_sweep(before, order, order.quantity, book.index, ts, opp);
    lemma_sweep_priority(before, order, order.quantity, book.index, ts);
    assert(side_ladder(submit_outcome(book, order, ts).0, opp) == s.levels);
}

/// The number of orders resting in `ladder`.
pub open spec fn order_count(ladder: Ladder) -> int
    decreases ladder.len(),
{
    if ladder.len() == 0 {
        0
    } else {
        ladder[0].1.len() + order_count(ladder.drop_first())
    }
}

proof fn lemma_order_count_concat(a: Ladder, b: Ladder)
    ensures
        order_count(a + b) == order_count(a) + order_count(b),
        order_count(a) >= 0,
    decreases a.len(),
{
    if a.len() == 0 {
        assert(a + b =~= b);
    } else {
        lemma_order_count_concat(a.drop_first(), b);
        assert((a + b).drop_first() =~= a.drop_first() + b);
        assert((a + b)[0] == a[0]);
    }
}

proof fn lemma_single_level(x: (u64, Seq<Order>))
    ensures
        flatten(seq![x]) == x.1,
        flatten_reversed(seq![x]) == x.1,
        order_count(seq![x]) == x.1.len(),
{
    let e = seq![x];
    assert(e.drop_last() =~= Seq::<(u64, Seq<Order>)>::empty());
    assert(e.drop_first() =~= Seq::<(u64, Seq<Order>)>::empty());
    assert(flatten(e.drop_last()) == Seq::<Order>::empty());
    assert(flatten_reversed(e.drop_first()) == Seq::<Order>::empty());
    assert(order_count(e.drop_first()) == 0);
    assert(Seq::<Order>::empty() + x.1 =~= x.1);
}

proof fn lemma_flatten_len(ladder: Ladder)
    ensures
        flatten(ladder).len() == order_count(ladder),
        flatten_reversed(ladder).len() == order_count(ladder),
    decreases ladder.len(),
{
    if ladder.len() > 0 {
        lemma_flatten_len(ladder.drop_last());
        lemma_flatten_len(ladder.drop_first());
        let x = ladder.last();
        lemma_single_level(x);
        assert(ladder.drop_last() + seq![x] =~= ladder);
        lemma_order_count_concat(ladder.drop_last(), seq![x]);
    }
}

/// Where the orders of level `i` stand in both readings of a ladder.
proof fn lemma_flatten_at(ladder: Ladder, i: int)
    requires
        0 <= i < ladder.len(),
    ensures
        order_count(ladder.subrange(0, i)) + ladder[i].1.len() <= order_count(ladder),
        order_count(ladder.skip(i + 1)) + ladder[i].1.len() == order_count(ladder.skip(i)),
        order_count(ladder.skip(i)) <= order_count(ladder),
        forall|j: int|
            0 <= j < ladder[i].1.len() ==> flatten(ladder)[order_count(ladder.subrange(0, i)) + j]
                == ladder[i].1[j] && flatten_reversed(ladder)[order_count(ladder.skip(i + 1)) + j]
                == ladder[i].1[j],
{
    let a = ladder.subrange(0, i);
    let x = ladder[i];
    let c = ladder.skip(i + 1);
    let b = seq![x] + c;
    assert(a + b =~= ladder);
    assert(ladder.skip(i) =~= b);
    lemma_single_level(x);
    lemma_flatten_len(a);
    lemma_flatten_len(c);
    lemma_order_count_concat(a, b);
    lemma_order_count_concat(seq![x], c);
    lemma_order_count_concat(c, Seq::empty());
    lemma_flatten_concat(a, b);
    lemma_flatten_concat(seq![x], c);
    lemma_flatten_reversed_concat(a, b);
    lemma_flatten_reversed_concat(seq![x], c);
    lemma_order_count_concat(a, Seq::empty());
    assert forall|j: int| 0 <= j < ladder[i].1.len() implies flatten(ladder)[order_count(
        ladder.subrange(0, i),
    ) + j] == ladder[i].1[j] && flatten_reversed(ladder)[order_count(ladder.skip(i + 1)) + j]
        == ladder[i].1[j] by {
        assert(flatten(ladder) == flatten(a) + (x.1 + flatten(c)));
        assert(flatten_reversed(ladder) == flatten_reversed(c) + x.1 + flatten_reversed(a));
    }
}

/// `x` stands somewhere before `y` in `out`.
pub open spec fn stands_before(out: Seq<Order>, x: Order, y: Order) -> bool {
    exists|a: int, b: int|
        #![trigger out[a], out[b]]
        0 <= a < b < out.len() && out[a] == x && out[b] == y
}

/// `queue` stands in `out` as one unbroken run, in its own order.
pub open spec fn holds_run(out: Seq<Order>, queue: Seq<Order>) -> bool {
    exists|k: int|
        0 <= k && k + queue.len() <= out.len() && #[trigger] out.subrange(k, k + queue.len())
            == queue
}

/// `out` lists every order resting in `l` and nothing more: as many orders
/// as rest there, each of them, the queue of each price as one run in
/// arrival order, and orders at a lower price before orders at a higher one.
pub open spec fn lists_in_price_time_order(out: Seq<Order>, l: Ladder) -> bool {
    &&& out.len() == order_count(l)
    &&& forall|i: int, j: int|
        0 <= i < l.len() && 0 <= j < l[i].1.len() ==> out.contains(#[trigger] l[i].1[j])
    &&& forall|i: int| 0 <= i < l.len() ==> holds_run(out, #[trigger] l[i].1)
    &&& forall|i1: int, i2: int, j1: int, j2: int|
        #![trigger l[i1].1[j1], l[i2].1[j2]]
        0 <= i1 < l.len() && 0 <= i2 < l.len() && 0 <= j1 < l[i1].1.len() && 0 <= j2
            < l[i2].1.len() && l[i1].0 < l[i2].0 ==> stands_before(out, l[i1].1[j1], l[i2].1[j2])
}

/// Where the order at level `i`, place `j` of `l` stands in the list of
/// `side`: asks are read from the lowest level, bids from the highest.
spec fn list_position(side: Side, l: Ladder, i: int, j: int) -> int {
    match side {
        Side::Sell => order_count(l.subrange(0, i)) + j,
        Side::Buy => order_count(l.skip(i + 1)) + j,
    }
}

proof fn lemma_list_position(book: BookView, side: Side, i: int, j: int)
    requires
        book_wf(book),
        0 <= i < side_ladder(book, side).len(),
        0 <= j < side_ladder(book, side)[i].1.len(),
    ensures
        0 <= list_position(side, side_ladder(book, side), i, j) < outstanding(book, side).len(),
        outstanding(book, side)[list_position(side, side_ladder(book, side), i, j)]
            == side_ladder(book, side)[i].1[j],
{
    let l = side_ladder(book, side);
    lemma_flatten_len(l);
    lemma_flatten_at(l, i);
    lemma_order_count_concat(l.subrange(0, i), Seq::empty());
    lemma_order_count_concat(l.skip(i + 1), Seq::empty());
}

/// An order resting at a lower price than another stands before it in the
/// list of its side.
proof fn lemma_listed_before(book: BookView, side: Side, i1: int, i2: int, j1: int, j2: int)
    requires
        book_wf(book),
        0 <= i1 < side_ladder(book, side).len(),
        0 <= i2 < side_ladder(book, side).len(),
        0 <= j1 < side_ladder(book, side)[i1].1.len(),
        0 <= j2 < side_ladder(book, side)[i2].1.len(),
        side_ladder(book, side)[i1].0 < side_ladder(book, side)[i2].0,
    ensures
        stands_before(
            outstanding(book, side),
            side_ladder(book, side)[i1].1[j1],
            side_ladder(book, side)[i2].1[j2],
        ),
{
    let out = outstanding(book, side);
    let l = side_ladder(book, side);
    lemma_list_position(book, side, i1, j1);
    lemma_list_position(book, side, i2, j2);
    lemma_flatten_at(l, i1);
    lemma_flatten_at(l, i2);
    match side {
        Side::Sell => {
            if i1 >= i2 {
                if i1 > i2 {
                    assert(ahead(Side::Sell, l[i2].0, l[i1].0));
                }
            }
            assert(i1 < i2);
            let a = l.subrange(0, i1);
            let mid = l.subrange(i1, i2);
            assert(l.subrange(0, i2) =~= a + mid);
            lemma_order_count_concat(a, mid);
            assert(mid =~= seq![l[i1]] + l.subrange(i1 + 1, i2));
            lemma_order_count_concat(seq![l[i1]], l.subrange(i1 + 1, i2));
            lemma_single_level(l[i1]);
            lemma_order_count_concat(l.subrange(i1 + 1, i2), Seq::empty());
        },
        Side::Buy => {
            if i1 <= i2 {
                if i1 < i2 {
                    assert(ahead(Side::Buy, l[i1].0, l[i2].0));
                }
            }
            assert(i1 > i2);
            let mid = l.subrange(i2 + 1, i1);
            assert(l.skip(i2 + 1) =~= mid + l.skip(i1));
            lemma_order_count_concat(mid, l.skip(i1));
        },
    }
    let a = list_position(side, l, i1, j1);
    let b = list_position(side, l, i2, j2);
    assert(0 <= a < b < out.len() && out[a] == l[i1].1[j1] && out[b] == l[i2].1[j2]);
}

/// `get_outstanding` lists every resting order of the side and nothing more,
/// by ascending price and, at one price, in arrival order (see
/// `lists_in_price_time_order`).
pub proof fn law_outstanding_lists_every_resting_order(book: BookView, side: Side)
    requires
        book_wf(book),
    ensures
        lists_in_price_time_order(outstanding(book, side), side_ladder(book, side)),
{
    let out = outstanding(book, side);
    let l = side_ladder(book, side);
    lemma_flatten_len(l);
    assert forall|i: int, j: int| 0 <= i < l.len() && 0 <= j < l[i].1.len() implies out.contains(
        #[trigger] l[i].1[j],
    ) by {
        lemma_list_position(book, side, i, j);
        assert(out[list_position(side, l, i, j)] == l[i].1[j]);
    }
    assert forall|i1: int, i2: int, j1: int, j2: int|
        #![trigger l[i1].1[j1], l[i2].1[j2]]
        0 <= i1 < l.len() && 0 <= i2 < l.len() && 0 <= j1 < l[i1].1.len() && 0 <= j2 < l[i2].1.len()
            && l[i1].0 < l[i2].0 implies stands_before(out, l[i1].1[j1], l[i2].1[j2]) by {
        lemma_listed_before(book, side, i1, i2, j1, j2);
    }
    assert forall|i: int| 0 <= i < l.len() implies holds_run(out, #[trigger] l[i].1) by {
        let k = list_position(side, l, i, 0);
        let n = l[i].1.len();
        if n > 0 {
            lemma_list_position(book, side, i, 0);
            lemma_list_position(book, side, i, n - 1);
            assert forall|j: int| 0 <= j < n implies out.subrange(k, k + n)[j] == l[i].1[j] by {
                lemma_list_position(book, side, i, j);
            }
            assert(out.subrange(k, k + l[i].1.len()) =~= l[i].1);
        } else {
            assert(out.subrange(0int, 0int + l[i].1.len()) =~= l[i].1);
        }
    }
}

} // verus!
