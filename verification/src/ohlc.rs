//! Open, high, low and close prices of the trades seen for one instrument.

use vstd::prelude::*;

verus! {

/// The four statistics as mathematical values, each in hundredths.
pub struct OhlcView {
    /// Price of the first trade ever recorded.
    pub open: Option<nat>,
    /// Highest trade price recorded.
    pub high: Option<nat>,
    /// Lowest trade price recorded.
    pub low: Option<nat>,
    /// Price of the latest trade recorded.
    pub close: Option<nat>,
}

impl OhlcView {
    /// The statistics before any trade.
    pub open spec fn blank() -> OhlcView {
        OhlcView { open: None, high: None, low: None, close: None }
    }

    /// The statistics after one more trade at `price`.
    pub open spec fn record(self, price: nat) -> OhlcView {
        OhlcView {
            open: Some(
                match self.open {
                    Some(first) => first,
                    None => price,
                },
            ),
            high: Some(
                match self.high {
                    Some(high) => if high >= price { high } else { price },
                    None => price,
                },
            ),
            low: Some(
                match self.low {
                    Some(low) => if low <= price { low } else { price },
                    None => price,
                },
            ),
            close: Some(price),
        }
    }

    /// The statistics after trades at `prices`, recorded first to last.
    pub open spec fn record_all(self, prices: Seq<nat>) -> OhlcView
        decreases prices.len(),
    {
        if prices.len() == 0 {
            self
        } else {
            self.record_all(prices.drop_last()).record(prices.last())
        }
    }

    /// Either no statistic is set, or all four are and the low and the high
    /// enclose the open and the close.
    pub open spec fn consistent(self) -> bool {
        match (self.open, self.high, self.low, self.close) {
            (None, None, None, None) => true,
            (Some(open), Some(high), Some(low), Some(close)) => low <= open <= high && low
                <= close <= high,
            _ => false,
        }
    }

    /// Whether `later` can follow `self` once more trades were recorded: the
    /// open, once set, is kept; the high never falls; the low never rises.
    pub open spec fn precedes(self, later: OhlcView) -> bool {
        &&& self.open is Some ==> later.open == self.open
        &&& self.high is Some ==> later.high is Some && later.high->0 >= self.high->0
        &&& self.low is Some ==> later.low is Some && later.low->0 <= self.low->0
    }
}

/// Recording a trade keeps the open once it is set, never lowers the high,
/// never raises the low, and makes the close the price just recorded.
pub proof fn lemma_record_is_monotone(stats: OhlcView, price: nat)
    ensures
        stats.precedes(stats.record(price)),
        stats.record(price).close == Some(price),
        stats.open is None ==> stats.record(price).open == Some(price),
        stats.record(price).high->0 >= price >= stats.record(price).low->0,
{
}

/// The four statistics become set together, on the first trade, and stay
/// consistent from then on.
pub proof fn lemma_record_keeps_consistent(stats: OhlcView, price: nat)
    requires
        stats.consistent(),
    ensures
        stats.record(price).consistent(),
        stats.record(price).open is Some,
        OhlcView::blank().consistent(),
{
}

/// Over any run of trades the statistics move one way only, and after a
/// run that is not empty the close is the price of its last trade.
pub proof fn lemma_record_all_is_monotone(stats: OhlcView, prices: Seq<nat>)
    requires
        stats.consistent(),
    ensures
        stats.record_all(prices).consistent(),
        stats.precedes(stats.record_all(prices)),
        prices.len() > 0 ==> stats.record_all(prices).close == Some(prices.last()),
        prices.len() == 0 ==> stats.record_all(prices) == stats,
    decreases prices.len(),
{
    if prices.len() > 0 {
        lemma_record_all_is_monotone(stats, prices.drop_last());
    }
}

/// Open, high, low and close prices for an instrument, in hundredths.
#[derive(Clone, Copy, Debug)]
pub struct Ohlc {
    open: Option<usize>,
    high: Option<usize>,
    low: Option<usize>,
    close: Option<usize>,
}

/// The mathematical value of an optional price.
pub open spec fn price_view(price: Option<usize>) -> Option<nat> {
    match price {
        Some(p) => Some(p as nat),
        None => None,
    }
}

impl View for Ohlc {
    type V = OhlcView;

    closed spec fn view(&self) -> OhlcView {
        OhlcView {
            open: price_view(self.open),
            high: price_view(self.high),
            low: price_view(self.low),
            close: price_view(self.close),
        }
    }
}

impl Ohlc {
    #[verifier::type_invariant]
    spec fn well_formed(self) -> bool {
        self@.consistent()
    }

    /// Creates blank statistics: all four are unset until the first update.
    pub fn new() -> (stats: Ohlc)
        ensures
            stats@ == OhlcView::blank(),
    {
        Ohlc { open: None, high: None, low: None, close: None }
    }

    /// Records a trade at `latest_price`.
    pub fn update(&mut self, latest_price: usize)
        ensures
            final(self)@ == old(self)@.record(latest_price as nat),
    {
        proof {
            use_type_invariant(&*self);
        }
        let open = match self.open {
            Some(first) => first,
            None => latest_price,
        };
        let high = match self.high {
            Some(high) => if high >= latest_price { high } else { latest_price },
            None => latest_price,
        };
        let low = match self.low {
            Some(low) => if low <= latest_price { low } else { latest_price },
            None => latest_price,
        };
        *self = Ohlc { open: Some(open), high: Some(high), low: Some(low), close: Some(latest_price) };
    }

    /// Returns the open, high, low and close prices.
    pub fn get(&self) -> (prices: (Option<usize>, Option<usize>, Option<usize>, Option<usize>))
        ensures
            price_view(prices.0) == self@.open,
            price_view(prices.1) == self@.high,
            price_view(prices.2) == self@.low,
            price_view(prices.3) == self@.close,
            self@.consistent(),
    {
        proof {
            use_type_invariant(self);
        }
        (self.open, self.high, self.low, self.close)
    }
}

} // verus!
