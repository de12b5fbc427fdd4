use vstd::prelude::*;
use crate::order::Event;

verus! {

/// Running totals over the trades seen so far.
pub struct Stats {
    pub total_volume: u64,
    pub trade_count: u64,
    pub total_notional: u64,
}

impl Stats {
    /// Recording `e` keeps every total within `u64`.
    pub open spec fn fits(self, e: Event) -> bool {
        match e {
            Event::Trade { price, qty, .. } => {
                &&& self.total_volume + qty <= u64::MAX
                &&& self.trade_count + 1 <= u64::MAX
                &&& self.total_notional + price * qty <= u64::MAX
            },
            _ => true,
        }
    }

    /// The totals after `e`: a trade adds its quantity to the volume, one to
    /// the count and price times quantity to the notional; any other event
    /// changes nothing.
    pub open spec fn recorded(self, e: Event) -> Stats {
        match e {
            Event::Trade { price, qty, .. } => Stats {
                total_volume: (self.total_volume + qty) as u64,
                trade_count: (self.trade_count + 1) as u64,
                total_notional: (self.total_notional + price * qty) as u64,
            },
            _ => self,
        }
    }

    /// All totals at zero.
    pub fn new() -> (s: Self)
        ensures
            s == (Stats { total_volume: 0, trade_count: 0, total_notional: 0 }),
    {
        Stats { total_volume: 0, trade_count: 0, total_notional: 0 }
    }

    /// Adds `event` to the totals (see `recorded`).
    pub fn record_event(&mut self, event: &Event)
        requires
            old(self).fits(*event),
        ensures
            *final(self) == old(self).recorded(*event),
    {
        if let Event::Trade { price, qty, .. } = event {
            self.total_volume = self.total_volume + *qty;
            self.trade_count = self.trade_count + 1;
            self.total_notional = self.total_notional + (*price * *qty);
        }
    }

    /// Whether `event` can be recorded without a total leaving `u64`.
    pub fn can_record(&self, event: &Event) -> (ok: bool)
        ensures
            ok == self.fits(*event),
    {
        match event {
            Event::Trade { price, qty, .. } => {
                let volume_ok = self.total_volume.checked_add(*qty).is_some();
                let count_ok = self.trade_count.checked_add(1).is_some();
                let notional_ok = match price.checked_mul(*qty) {
                    Some(n) => self.total_notional.checked_add(n).is_some(),
                    None => {
                        assert(self.total_notional + *price * *qty > u64::MAX) by (nonlinear_arith)
                            requires
                                *price * *qty > u64::MAX,
                                self.total_notional >= 0,
                        ;
                        false
                    },
                };
                volume_ok && count_ok && notional_ok
            },
            _ => true,
        }
    }
}

/// Only trades move the totals: any other event can always be recorded and
/// changes nothing; a trade that fits adds one to the count, its quantity to
/// the volume, and its price times its quantity to the notional.
pub proof fn law_only_trades_move_totals(s: Stats, e: Event)
    ensures
        !(e is Trade) ==> s.fits(e) && s.recorded(e) == s,
        e matches Event::Trade { price, qty, .. } ==> (s.fits(e) ==> {
            &&& s.recorded(e).trade_count == s.trade_count + 1
            &&& s.recorded(e).total_volume == s.total_volume + qty
            &&& s.recorded(e).total_notional == s.total_notional + price * qty
        }),
{
}

} // verus!
