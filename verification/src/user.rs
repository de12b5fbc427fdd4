use vstd::prelude::*;
use crate::order::{Event, Order};

verus! {

/// The order `o` took part in a trade between `buy` and `sell`.
pub open spec fn involved(o: Order, buy: u64, sell: u64) -> bool {
    o.id == buy || o.id == sell
}

/// `k` is the position of the first order of `orders` that took part in a
/// trade between `buy` and `sell`.
pub open spec fn first_involved(orders: Seq<Order>, buy: u64, sell: u64, k: int) -> bool {
    &&& 0 <= k < orders.len()
    &&& involved(orders[k], buy, sell)
    &&& forall|j: int| 0 <= j < k ==> !involved(orders[j], buy, sell)
}

/// The (matched, unmatched) orders of a user after seeing `event`: on a trade,
/// the first unmatched order that took part in it moves to the end of the
/// matched orders, its place taken by the last unmatched order. Anything else
/// changes nothing.
pub open spec fn after_event(matched: Seq<Order>, unmatched: Seq<Order>, event: Event) -> (
    Seq<Order>,
    Seq<Order>,
) {
    match event {
        Event::Trade { buy_order_id, sell_order_id, .. } => {
            if exists|k: int| first_involved(unmatched, buy_order_id, sell_order_id, k) {
                let k = choose|k: int| first_involved(unmatched, buy_order_id, sell_order_id, k);
                (matched.push(unmatched[k]), unmatched.update(k, unmatched.last()).drop_last())
            } else {
                (matched, unmatched)
            }
        },
        _ => (matched, unmatched),
    }
}

/// A trader and the orders they sent, split into those that have traded and
/// those that have not yet.
pub struct User {
    pub id: u32,
    matched_orders: Vec<Order>,
    unmatched_orders: Vec<Order>,
}

impl User {
    /// The user's id, the public field `id`. (Verus refuses a contract
    /// outside this module that reads a field of a struct with private fields,
    /// and an open spec function that does, so contracts speak of it here.)
    pub closed spec fn trader(&self) -> u32 {
        self.id
    }

    /// The orders that have traded, in the order they were matched.
    pub closed spec fn matched(&self) -> Seq<Order> {
        self.matched_orders@
    }

    /// The orders that have not traded yet.
    pub closed spec fn unmatched(&self) -> Seq<Order> {
        self.unmatched_orders@
    }

    /// A user with no orders.
    pub fn new(id: u32) -> (u: Self)
        ensures
            u.trader() == id,
            u.matched() == Seq::<Order>::empty(),
            u.unmatched() == Seq::<Order>::empty(),
    {
        User { id, matched_orders: Vec::new(), unmatched_orders: Vec::new() }
    }

    /// Notes `order` as sent and not yet traded.
    pub fn record_order(&mut self, order: Order)
        ensures
            final(self).trader() == old(self).trader(),
            final(self).matched() == old(self).matched(),
            final(self).unmatched() == old(self).unmatched().push(order),
    {
        self.unmatched_orders.push(order)
    }

    /// Moves the first unmatched order that took part in `event`, if it is a
    /// trade, to the matched orders (see `after_event`).
    pub fn check_event(&mut self, event: Event)
        ensures
            final(self).trader() == old(self).trader(),
            (final(self).matched(), final(self).unmatched()) == after_event(
                old(self).matched(),
                old(self).unmatched(),
                event,
            ),
    {
        if let Event::Trade { buy_order_id, sell_order_id, .. } = event {
            let mut k: usize = 0;
            while k < self.unmatched_orders.len() && !(self.unmatched_orders[k].id == buy_order_id
                || self.unmatched_orders[k].id == sell_order_id)
                invariant
                    k <= self.unmatched_orders.len(),
                    self.unmatched_orders@ == old(self).unmatched_orders@,
                    self.matched_orders@ == old(self).matched_orders@,
                    self.id == old(self).id,
                    forall|j: int|
                        0 <= j < k ==> !involved(
                            #[trigger] self.unmatched_orders@[j],
                            buy_order_id,
                            sell_order_id,
                        ),
                decreases self.unmatched_orders.len() - k,
            {
                k += 1;
            }
            if k < self.unmatched_orders.len() {
                let ghost u = self.unmatched_orders@;
                assert(first_involved(u, buy_order_id, sell_order_id, k as int));
                let ghost c = choose|m: int| first_involved(u, buy_order_id, sell_order_id, m);
                assert(c == k);
                self.match_order(k);
            } else {
                assert(!exists|m: int|
                    first_involved(self.unmatched_orders@, buy_order_id, sell_order_id, m));
            }
        }
    }

    fn match_order(&mut self, index: usize)
        requires
            index < old(self).unmatched_orders@.len(),
        ensures
            final(self).id == old(self).id,
            final(self).matched_orders@ == old(self).matched_orders@.push(
                old(self).unmatched_orders@[index as int],
            ),
            final(self).unmatched_orders@ == old(self).unmatched_orders@.update(
                index as int,
                old(self).unmatched_orders@.last(),
            ).drop_last(),
    {
        let order = self.unmatched_orders.swap_remove(index);
        self.matched_orders.push(order)
    }

    /// The orders that have traded.
    pub fn matched_orders(&self) -> (v: &Vec<Order>)
        ensures
            v@ == self.matched(),
    {
        &self.matched_orders
    }

    /// The orders that have not traded yet.
    pub fn unmatched_orders(&self) -> (v: &Vec<Order>)
        ensures
            v@ == self.unmatched(),
    {
        &self.unmatched_orders
    }
}

proof fn lemma_first_involved_exists(orders: Seq<Order>, buy: u64, sell: u64, k: int)
    requires
        0 <= k < orders.len(),
        orders[k].id == buy || orders[k].id == sell,
    ensures
        exists|m: int| first_involved(orders, buy, sell, m),
    decreases k,
{
    if exists|j: int| 0 <= j < k && (orders[j].id == buy || orders[j].id == sell) {
        let j = choose|j: int| 0 <= j < k && (orders[j].id == buy || orders[j].id == sell);
        lemma_first_involved_exists(orders, buy, sell, j);
    } else {
        assert(first_involved(orders, buy, sell, k));
    }
}

/// A trade moves the first unmatched order whose id it names, as buyer or as
/// seller, to the end of the matched orders, the last unmatched order taking
/// its place; a trade that names none of them changes nothing.
pub proof fn law_trade_moves_first_order_it_names(
    matched: Seq<Order>,
    unmatched: Seq<Order>,
    buy: u64,
    sell: u64,
    price: u64,
    qty: u64,
    ts: u64,
)
    ensures
        ({
            let e = Event::Trade {
                buy_order_id: buy,
                sell_order_id: sell,
                price,
                qty,
                timestamp: ts,
            };
            let (m2, u2) = after_event(matched, unmatched, e);
            &&& (exists|k: int|
                0 <= k < unmatched.len() && (unmatched[k].id == buy || unmatched[k].id == sell))
                ==> exists|k: int|
                {
                    &&& 0 <= k < unmatched.len()
                    &&& (unmatched[k].id == buy || unmatched[k].id == sell)
                    &&& forall|j: int|
                        0 <= j < k ==> unmatched[j].id != buy && unmatched[j].id != sell
                    &&& m2 == matched.push(unmatched[k])
                    &&& u2 == unmatched.update(k, unmatched.last()).drop_last()
                }
            &&& (forall|k: int|
                0 <= k < unmatched.len() ==> unmatched[k].id != buy && unmatched[k].id != sell)
                ==> m2 == matched && u2 == unmatched
        }),
{
    if exists|k: int| 0 <= k < unmatched.len() && (unmatched[k].id == buy || unmatched[k].id == sell) {
        let k0 = choose|k: int|
            0 <= k < unmatched.len() && (unmatched[k].id == buy || unmatched[k].id == sell);
        lemma_first_involved_exists(unmatched, buy, sell, k0);
        let k = choose|m: int| first_involved(unmatched, buy, sell, m);
        assert(first_involved(unmatched, buy, sell, k));
        let e = Event::Trade { buy_order_id: buy, sell_order_id: sell, price, qty, timestamp: ts };
        let (m2, u2) = after_event(matched, unmatched, e);
        assert(m2 == matched.push(unmatched[k]));
        assert(u2 == unmatched.update(k, unmatched.last()).drop_last());
        assert(forall|j: int| 0 <= j < k ==> !involved(unmatched[j], buy, sell));
        assert(forall|j: int| 0 <= j < k ==> unmatched[j].id != buy && unmatched[j].id != sell);
    } else {
        assert(!exists|m: int| first_involved(unmatched, buy, sell, m));
    }
}

/// Any event but a trade leaves a user's orders as they are.
pub proof fn law_only_trades_match_orders(matched: Seq<Order>, unmatched: Seq<Order>, e: Event)
    ensures
        !(e is Trade) ==> after_event(matched, unmatched, e) == (matched, unmatched),
{
}

} // verus!
