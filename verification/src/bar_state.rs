use vstd::prelude::*;

verus! {

/// Mathematical model of the shared OHLCV accumulator: exact integers, so
/// overflow of the machine words is visible as a separate concern.
pub struct BarV {
    pub has_open: bool,
    pub open: int,
    pub high: int,
    pub low: int,
    pub close: int,
    pub volume: int,
    pub notional: int,
}

/// The shared OHLCV accumulator both sampling policies feed.
/// Prices and volumes are fixed-point integers: a price field text scaled by
/// its configured number of decimal places.
pub struct BarState {
    pub has_open: bool,
    pub open: u64,
    pub high: u64,
    pub low: u64,
    pub close: u64,
    pub volume: u128,
    pub notional: u128,
}

impl View for BarState {
    type V = BarV;

    open spec fn view(&self) -> BarV {
        BarV {
            has_open: self.has_open,
            open: self.open as int,
            high: self.high as int,
            low: self.low as int,
            close: self.close as int,
            volume: self.volume as int,
            notional: self.notional as int,
        }
    }
}

/// The price bounds every bar row must satisfy, whether accumulating or
/// already emitted.
pub open spec fn bar_wf(b: BarV) -> bool {
    &&& 0 <= b.low <= b.open <= b.high
    &&& b.low <= b.close <= b.high
    &&& 0 <= b.volume
    &&& 0 <= b.notional
}

/// A fresh accumulator before any price has been seen.
pub open spec fn bar_empty() -> BarV {
    BarV { has_open: false, open: 0, high: 0, low: 0, close: 0, volume: 0, notional: 0 }
}

/// Opening a new bar at `price`: every price statistic collapses to the
/// seeding trade and the cumulative fields restart.
pub open spec fn seed_spec(price: int) -> BarV {
    BarV {
        has_open: true,
        open: price,
        high: price,
        low: price,
        close: price,
        volume: 0,
        notional: 0,
    }
}

/// Absorbing one trade: extend the high/low envelope, move the close, and
/// accumulate volume and notional (price times volume times multiplier).
pub open spec fn absorb_spec(b: BarV, price: int, volume: int, mult: int) -> BarV {
    BarV {
        has_open: b.has_open,
        open: b.open,
        high: if price > b.high {
            price
        } else {
            b.high
        },
        low: if price < b.low {
            price
        } else {
            b.low
        },
        close: price,
        volume: b.volume + volume,
        notional: b.notional + price * volume * mult,
    }
}

/// Whether one absorbed trade keeps both cumulative fields inside `u128`.
pub open spec fn absorb_fits(b: BarV, price: int, volume: int, mult: int) -> bool {
    &&& absorb_spec(b, price, volume, mult).volume <= u128::MAX
    &&& absorb_spec(b, price, volume, mult).notional <= u128::MAX
}

impl BarState {
    pub fn new() -> (s: Self)
        ensures
            s@ == bar_empty(),
    {
        BarState { has_open: false, open: 0, high: 0, low: 0, close: 0, volume: 0, notional: 0 }
    }

    /// Opens a bar at the given trade's price.
    pub fn seed(&mut self, price: u64)
        ensures
            final(self)@ == seed_spec(price as int),
    {
        self.has_open = true;
        self.open = price;
        self.high = price;
        self.low = price;
        self.close = price;
        self.volume = 0;
        self.notional = 0;
    }

    /// Folds one trade into the open bar. Must only be called once a bar has
    /// been opened. Reports whether the exact cumulative values still fit the
    /// machine words; on overflow the accumulator is left untouched.
    pub fn absorb(&mut self, price: u64, volume: u64, multiply: u64) -> (ok: bool)
        requires
            old(self).has_open,
        ensures
            ok == absorb_fits(old(self)@, price as int, volume as int, multiply as int),
            ok ==> final(self)@ == absorb_spec(
                old(self)@,
                price as int,
                volume as int,
                multiply as int,
            ),
            !ok ==> final(self)@ == old(self)@,
    {
        proof {
            assert((price as int) * (volume as int) <= u128::MAX) by (nonlinear_arith)
                requires
                    0 <= price <= u64::MAX,
                    0 <= volume <= u64::MAX,
            ;
        }
        let pv: u128 = (price as u128) * (volume as u128);
        let nv = match self.volume.checked_add(volume as u128) {
            Some(v) => v,
            None => {
                return false;
            },
        };
        let pvm = match pv.checked_mul(multiply as u128) {
            Some(v) => v,
            None => {
                proof {
                    let n0 = old(self)@.notional;
                    assert(n0 + (price as int) * (volume as int) * (multiply as int) > u128::MAX)
                        by (nonlinear_arith)
                        requires
                            (price as int) * (volume as int) * (multiply as int) > u128::MAX,
                            n0 >= 0,
                    ;
                }
                return false;
            },
        };
        let nn = match self.notional.checked_add(pvm) {
            Some(v) => v,
            None => {
                return false;
            },
        };
        if price > self.high {
            self.high = price;
        }
        if price < self.low {
            self.low = price;
        }
        self.close = price;
        self.volume = nv;
        self.notional = nn;
        true
    }

    /// Clears the accumulator back to the not-yet-open state.
    pub fn reset(&mut self)
        ensures
            final(self)@ == bar_empty(),
    {
        self.has_open = false;
        self.open = 0;
        self.high = 0;
        self.low = 0;
        self.close = 0;
        self.volume = 0;
        self.notional = 0;
    }
}

/// Seeding preserves the row bounds, and absorbing preserves them: the open
/// stays inside the envelope and the close is always the latest price.
pub proof fn lemma_absorb_wf(b: BarV, price: int, volume: int, mult: int)
    requires
        bar_wf(b),
        0 <= price,
        0 <= volume,
        0 <= mult,
    ensures
        bar_wf(absorb_spec(b, price, volume, mult)),
{
    assert(price * volume * mult >= 0) by (nonlinear_arith)
        requires
            price >= 0,
            volume >= 0,
            mult >= 0,
    ;
}

} // verus!
