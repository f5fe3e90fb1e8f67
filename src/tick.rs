//! One market observation.

use crate::price::Price;
use vstd::prelude::*;
use vstd::string::StringExecFns;

verus! {

/// Volume above which a tick counts as significant.
pub const SIGNIFICANT_VOLUME: u64 = 1000;

/// Symbol that the quote source refuses.
pub const INVALID_SYMBOL: &'static str = "INVALID";

/// A price and volume observed for a symbol; `timestamp_millis` is
/// milliseconds since the Unix epoch, UTC.
#[derive(Clone, Debug)]
pub struct MarketTick {
    pub symbol: String,
    pub price: Price,
    pub volume: u64,
    pub timestamp_millis: i64,
}

impl MarketTick {
    pub open spec fn wf(&self) -> bool {
        self.price.wf()
    }

    /// A tick stamped with the current time.
    pub fn new(symbol: String, price: Price, volume: u64) -> (r: MarketTick)
        ensures
            r.symbol@ == symbol@,
            r.price == price,
            r.volume == volume,
    {
        let timestamp_millis = utc_now_millis();
        MarketTick { symbol, price, volume, timestamp_millis }
    }

    pub fn is_significant_volume(&self) -> (r: bool)
        ensures
            r == (self.volume > SIGNIFICANT_VOLUME),
    {
        self.volume > SIGNIFICANT_VOLUME
    }
}

/// The tick a quote source reports for `symbol` at a price of `cents`
/// hundredths; the symbol `INVALID` is refused with a message naming it.
pub fn tick_from_quote(symbol: &str, cents: i64, volume: u64) -> (r: Result<MarketTick, String>)
    ensures
        r is Err <==> symbol@ == INVALID_SYMBOL@,
        r matches Err(m) ==> m@ == "Invalid symbol "@ + symbol@,
        r matches Ok(t) ==> t.symbol@ == symbol@ && t.volume == volume,
        r matches Ok(t) ==> t.price.mantissa == cents as i128 && t.price.scale == 2,
        r matches Ok(t) ==> t.wf(),
{
    let owned = String::from_str(symbol);
    let invalid = String::from_str(INVALID_SYMBOL);
    if owned == invalid {
        let message = String::from_str("Invalid symbol ");
        Err(message.concat(symbol))
    } else {
        Ok(MarketTick::new(owned, Price::new(cents, 2), volume))
    }
}

/// Relies on `chrono::Utc::now` and `DateTime::timestamp_millis`: the current
/// time; nothing is promised of its value.
#[verifier::external_body]
fn utc_now_millis() -> (r: i64) {
    chrono::Utc::now().timestamp_millis()
}

} // verus!
