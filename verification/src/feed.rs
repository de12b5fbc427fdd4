use vstd::prelude::*;
use crate::order::TradeType;

verus! {

/// The kind of a simulated order, from a roll between 1 and 99: rolls up to
/// 79 give a limit order, 80 to 94 a market order, higher rolls an IOC order.
pub fn trade_type_for_roll(roll: u64) -> (t: TradeType)
    ensures
        t == (if roll <= 79 {
            TradeType::Limit
        } else if roll <= 94 {
            TradeType::Market
        } else {
            TradeType::Ioc
        }),
{
    if roll <= 79 {
        TradeType::Limit
    } else if roll <= 94 {
        TradeType::Market
    } else {
        TradeType::Ioc
    }
}

} // verus!
