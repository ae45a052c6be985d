use vstd::prelude::*;

use crate::bar_state::{
    absorb_fits, absorb_spec, bar_empty, bar_wf, lemma_absorb_wf, seed_spec, BarState, BarV,
};
use crate::bars::Record;
use crate::iqfeed_date_time::{
    dt_wf, round_quarter, round_quarter_spec, parse_bytes, ts_spec, DateTime,
};
use crate::num::{parse_scaled, scaled_of};
use crate::DataError;

verus! {

/// One trade print for the time policy: its parsed wall-clock timestamp and
/// its fixed-point price and size.
pub struct TTickV {
    pub dt: DateTime,
    pub price: u64,
    pub volume: u64,
}

/// What extracting a trade from a time-bar record means: the fixed column
/// layout `request_id, date_time, last, last_size, ...` of a tick file.
pub open spec fn time_tick_spec(rec: Seq<Seq<u8>>, pf: nat, vf: nat) -> Result<
    TTickV,
    DataError,
> {
    if rec.len() <= 3 {
        Err(DataError::ShortRecord)
    } else {
        match ts_spec(rec[1]) {
            Option::None => Err(DataError::BadTimestamp),
            Option::Some(dt) => match scaled_of(rec[2], pf) {
                Option::None => Err(DataError::BadNumber),
                Option::Some(p) => match scaled_of(rec[3], vf) {
                    Option::None => Err(DataError::BadNumber),
                    Option::Some(v) => Ok(TTickV { dt, price: p, volume: v }),
                },
            },
        }
    }
}

/// Model state of the time-bar policy.
pub struct TStateV {
    pub interval: int,
    pub bar: BarV,
    pub bartime: DateTime,
    pub last_minute: int,
}

/// Model of one emitted time bar row; `minute` is the boundary minute whose
/// crossing closed the bar, or the seed's minute on the trailing flush row.
pub struct TBarV {
    pub open_time: DateTime,
    pub minute: int,
    pub open: int,
    pub high: int,
    pub low: int,
    pub close: int,
    pub volume: int,
    pub notional: int,
}

/// The timestamp a fresh policy holds before any trade has seeded a bar;
/// it is always overwritten by the first seed before it can be reported.
pub open spec fn t_epoch() -> DateTime {
    DateTime { year: 1, month: 1, day: 1, hour: 0, minute: 0, second: 0, milli: 0 }
}

pub open spec fn t_init(interval: int) -> TStateV {
    TStateV { interval, bar: bar_empty(), bartime: t_epoch(), last_minute: 0 }
}

pub open spec fn t_seeded(s: TStateV, t: TTickV) -> TStateV {
    if !s.bar.has_open {
        TStateV { bar: seed_spec(t.price as int), bartime: t.dt, ..s }
    } else {
        s
    }
}

pub open spec fn t_step_fits(s: TStateV, t: TTickV) -> bool {
    absorb_fits(t_seeded(s, t).bar, t.price as int, t.volume as int, 1)
}

/// One ingested trade: seed on the first trade of a period, absorb, then
/// emit when the trade's minute lands on a boundary of the configured
/// interval and differs from the minute of the last emission. The reported
/// open time is the bar's seed timestamp rounded to its 15-minute boundary,
/// whatever the configured interval.
pub open spec fn t_step(s: TStateV, t: TTickV) -> (TStateV, Option<TBarV>) {
    let s1 = t_seeded(s, t);
    let b2 = absorb_spec(s1.bar, t.price as int, t.volume as int, 1);
    let emit = t.dt.minute as int % s.interval == 0 && t.dt.minute != s.last_minute;
    if emit {
        (
            TStateV {
                interval: s.interval,
                bar: bar_empty(),
                bartime: s1.bartime,
                last_minute: t.dt.minute as int,
            },
            Some(
                TBarV {
                    open_time: round_quarter_spec(s1.bartime),
                    minute: t.dt.minute as int,
                    open: b2.open,
                    high: b2.high,
                    low: b2.low,
                    close: b2.close,
                    volume: b2.volume,
                    notional: b2.notional,
                },
            ),
        )
    } else {
        (TStateV { bar: b2, ..s1 }, None)
    }
}

/// The seed timestamp on record is always a real wall-clock time, so the
/// reported boundary rounding is defined, for boundary emissions and for the
/// trailing flush alike.
pub open spec fn t_inv(s: TStateV) -> bool {
    &&& s.interval >= 1
    &&& dt_wf(s.bartime)
    &&& s.bartime.year <= 9999
}

/// The time-bar sampling policy of one run.
pub struct TimeBars {
    pub interval: u32,
    pub state: BarState,
    pub bartime: DateTime,
    pub last_minute: u32,
}

impl View for TimeBars {
    type V = TStateV;

    open spec fn view(&self) -> TStateV {
        TStateV {
            interval: self.interval as int,
            bar: self.state@,
            bartime: self.bartime,
            last_minute: self.last_minute as int,
        }
    }
}

/// One emitted time bar; `minute` is the boundary minute that closed it,
/// or the seed's minute on the trailing flush row.
#[derive(Debug, PartialEq, Eq)]
pub struct TimeBar {
    pub open_time: DateTime,
    pub minute: u32,
    pub open: u64,
    pub high: u64,
    pub low: u64,
    pub close: u64,
    pub volume: u128,
    pub cum_dollars: u128,
}

impl View for TimeBar {
    type V = TBarV;

    open spec fn view(&self) -> TBarV {
        TBarV {
            open_time: self.open_time,
            minute: self.minute as int,
            open: self.open as int,
            high: self.high as int,
            low: self.low as int,
            close: self.close as int,
            volume: self.volume as int,
            notional: self.cum_dollars as int,
        }
    }
}

impl vstd::view::DeepView for TimeBar {
    type V = TBarV;

    open spec fn deep_view(&self) -> TBarV {
        self@
    }
}

impl TimeBars {
    pub fn new(interval: u32) -> (s: Self)
        requires
            interval >= 1,
        ensures
            s@ == t_init(interval as int),
            t_inv(s@),
    {
        TimeBars {
            interval,
            state: BarState::new(),
            bartime: DateTime { year: 1, month: 1, day: 1, hour: 0, minute: 0, second: 0, milli: 0 },
            last_minute: 0,
        }
    }

    /// Ingests one trade; yields the bar closed by a boundary crossing.
    pub fn ingest(&mut self, dt: &DateTime, price: u64, volume: u64) -> (r: Result<
        Option<TimeBar>,
        DataError,
    >)
        requires
            t_inv(old(self)@),
            dt_wf(*dt),
            dt.year <= 9999,
        ensures
            match r {
                Ok(ob) => {
                    &&& t_step_fits(old(self)@, TTickV { dt: *dt, price, volume })
                    &&& final(self)@ == t_step(old(self)@, TTickV { dt: *dt, price, volume }).0
                    &&& match ob {
                        Some(b) => t_step(old(self)@, TTickV { dt: *dt, price, volume }).1
                            == Some(b@),
                        None => t_step(old(self)@, TTickV { dt: *dt, price, volume }).1 is None,
                    }
                    &&& t_inv(final(self)@)
                },
                Err(e) => e == DataError::Overflow && !t_step_fits(
                    old(self)@,
                    TTickV { dt: *dt, price, volume },
                ),
            },
    {
        if !self.state.has_open {
            self.state.seed(price);
            self.bartime = *dt;
        }
        let ok = self.state.absorb(price, volume, 1);
        if !ok {
            return Err(DataError::Overflow);
        }
        let emit = dt.minute % self.interval == 0 && dt.minute != self.last_minute;
        if emit {
            let open_time = round_quarter(self.bartime);
            let bar = TimeBar {
                open_time,
                minute: dt.minute,
                open: self.state.open,
                high: self.state.high,
                low: self.state.low,
                close: self.state.close,
                volume: self.state.volume,
                cum_dollars: self.state.notional,
            };
            self.state.reset();
            self.last_minute = dt.minute;
            Ok(Some(bar))
        } else {
            Ok(None)
        }
    }

    /// The unconditional end-of-input flush: whatever the accumulator still
    /// holds becomes the run's last bar, even when it is empty or never
    /// reached a boundary.
    pub fn flush(&self) -> (b: TimeBar)
        requires
            t_inv(self@),
        ensures
            b@ == t_flush_bar(self@),
    {
        let open_time = round_quarter(self.bartime);
        TimeBar {
            open_time,
            minute: self.bartime.minute,
            open: self.state.open,
            high: self.state.high,
            low: self.state.low,
            close: self.state.close,
            volume: self.state.volume,
            cum_dollars: self.state.notional,
        }
    }
}

/// The unconditional end-of-run flush row: whatever the accumulator holds,
/// reported at the 15-minute boundary of its seed timestamp, with the seed's
/// minute on record; all-zero when no trade followed the last emission.
pub open spec fn t_flush_bar(s: TStateV) -> TBarV {
    TBarV {
        open_time: round_quarter_spec(s.bartime),
        minute: s.bartime.minute as int,
        open: s.bar.open,
        high: s.bar.high,
        low: s.bar.low,
        close: s.bar.close,
        volume: s.bar.volume,
        notional: s.bar.notional,
    }
}

/// Processing one file's records in order under the time policy.
pub open spec fn t_file_run(s: TStateV, recs: Seq<Seq<Seq<u8>>>, pf: nat, vf: nat) -> Result<
    (TStateV, Seq<TBarV>),
    DataError,
>
    decreases recs.len(),
{
    if recs.len() == 0 {
        Ok((s, Seq::empty()))
    } else {
        match t_file_run(s, recs.drop_last(), pf, vf) {
            Err(e) => Err(e),
            Ok((s1, bs)) => match time_tick_spec(recs.last(), pf, vf) {
                Err(e) => Err(e),
                Ok(t) => if t_step_fits(s1, t) {
                    Ok(
                        (
                            t_step(s1, t).0,
                            match t_step(s1, t).1 {
                                Some(b) => bs.push(b),
                                None => bs,
                            },
                        ),
                    )
                } else {
                    Err(DataError::Overflow)
                },
            },
        }
    }
}

/// Processing the run's files in creation order; unlike the dollar policy,
/// the accumulator carries over file boundaries unchanged.
pub open spec fn t_files_run(s: TStateV, files: Seq<Seq<Seq<Seq<u8>>>>, pf: nat, vf: nat) -> Result<
    (TStateV, Seq<TBarV>),
    DataError,
>
    decreases files.len(),
{
    if files.len() == 0 {
        Ok((s, Seq::empty()))
    } else {
        match t_files_run(s, files.drop_last(), pf, vf) {
            Err(e) => Err(e),
            Ok((s1, bs)) => match t_file_run(s1, files.last(), pf, vf) {
                Err(e) => Err(e),
                Ok((s2, bs2)) => Ok((s2, bs + bs2)),
            },
        }
    }
}

/// The whole time-bar run over every file, in order, ending with the
/// unconditional flush of whatever the accumulator still holds.
pub open spec fn time_bars_spec(
    files: Seq<Seq<Seq<Seq<u8>>>>,
    interval: int,
    pf: nat,
    vf: nat,
) -> Result<Seq<TBarV>, DataError> {
    match t_files_run(t_init(interval), files, pf, vf) {
        Err(e) => Err(e),
        Ok((sf, bs)) => Ok(bs.push(t_flush_bar(sf))),
    }
}

proof fn lemma_t_file_run_err(s: TStateV, recs: Seq<Seq<Seq<u8>>>, k: int, pf: nat, vf: nat)
    requires
        0 <= k <= recs.len(),
        t_file_run(s, recs.subrange(0, k), pf, vf) is Err,
    ensures
        t_file_run(s, recs, pf, vf) == t_file_run(s, recs.subrange(0, k), pf, vf),
    decreases recs.len() - k,
{
    if k < recs.len() {
        assert(recs.subrange(0, k + 1).drop_last() =~= recs.subrange(0, k));
        assert(recs.subrange(0, k + 1).last() == recs[k]);
        lemma_t_file_run_err(s, recs, k + 1, pf, vf);
    } else {
        assert(recs.subrange(0, k) =~= recs);
    }
}

proof fn lemma_t_files_run_err(s: TStateV, files: Seq<Seq<Seq<Seq<u8>>>>, k: int, pf: nat, vf: nat)
    requires
        0 <= k <= files.len(),
        t_files_run(s, files.subrange(0, k), pf, vf) is Err,
    ensures
        t_files_run(s, files, pf, vf) == t_files_run(s, files.subrange(0, k), pf, vf),
    decreases files.len() - k,
{
    if k < files.len() {
        assert(files.subrange(0, k + 1).drop_last() =~= files.subrange(0, k));
        assert(files.subrange(0, k + 1).last() == files[k]);
        lemma_t_files_run_err(s, files, k + 1, pf, vf);
    } else {
        assert(files.subrange(0, k) =~= files);
    }
}

/// The price bounds every emitted time bar satisfies.
pub open spec fn tbar_ok(b: TBarV) -> bool {
    0 <= b.low <= b.open <= b.high && b.low <= b.close <= b.high
}

proof fn lemma_t_file_run_minutes(s: TStateV, recs: Seq<Seq<Seq<u8>>>, pf: nat, vf: nat)
    ensures
        t_file_run(s, recs, pf, vf) matches Ok((sf, bs)) ==> {
            &&& sf.interval == s.interval
            &&& (bs.len() == 0 ==> sf.last_minute == s.last_minute)
            &&& (bs.len() > 0 ==> sf.last_minute == bs.last().minute)
            &&& (bs.len() > 0 ==> bs[0].minute != s.last_minute)
            &&& forall|i: int| 0 <= i < bs.len() - 1 ==> #[trigger] bs[i + 1].minute != bs[i].minute
        },
    decreases recs.len(),
{
    if recs.len() > 0 {
        lemma_t_file_run_minutes(s, recs.drop_last(), pf, vf);
        match t_file_run(s, recs.drop_last(), pf, vf) {
            Ok(r1) => {
                let s1 = r1.0;
                let bs1 = r1.1;
                match time_tick_spec(recs.last(), pf, vf) {
                    Ok(t) => {
                        if t_step_fits(s1, t) {
                            match t_step(s1, t).1 {
                                Some(bv) => {
                                    let bs = bs1.push(bv);
                                    assert(bv.minute != s1.last_minute);
                                    assert forall|i: int| 0 <= i < bs.len() - 1 implies #[trigger] bs[i
                                        + 1].minute != bs[i].minute by {
                                        if i + 1 < bs1.len() {
                                            assert(bs[i] == bs1[i] && bs[i + 1] == bs1[i + 1]);
                                        } else {
                                            assert(bs[i] == bs1[i] && bs[i + 1] == bv);
                                            assert(bs1[i] == bs1.last());
                                        }
                                    }
                                },
                                None => {},
                            }
                        }
                    },
                    Err(_) => {},
                }
            },
            Err(_) => {},
        }
    }
}

proof fn lemma_t_files_run_minutes(s: TStateV, files: Seq<Seq<Seq<Seq<u8>>>>, pf: nat, vf: nat)
    ensures
        t_files_run(s, files, pf, vf) matches Ok((sf, bs)) ==> {
            &&& sf.interval == s.interval
            &&& (bs.len() == 0 ==> sf.last_minute == s.last_minute)
            &&& (bs.len() > 0 ==> sf.last_minute == bs.last().minute)
            &&& (bs.len() > 0 ==> bs[0].minute != s.last_minute)
            &&& forall|i: int| 0 <= i < bs.len() - 1 ==> #[trigger] bs[i + 1].minute != bs[i].minute
        },
    decreases files.len(),
{
    if files.len() > 0 {
        lemma_t_files_run_minutes(s, files.drop_last(), pf, vf);
        match t_files_run(s, files.drop_last(), pf, vf) {
            Ok(r1) => {
                let s1 = r1.0;
                let bs1 = r1.1;
                lemma_t_file_run_minutes(s1, files.last(), pf, vf);
                match t_file_run(s1, files.last(), pf, vf) {
                    Ok(r2) => {
                        let bs2 = r2.1;
                        let bs = bs1 + bs2;
                        assert(bs.len() > 0 ==> bs.last() == (if bs2.len() > 0 {
                            bs2.last()
                        } else {
                            bs1.last()
                        }));
                        assert forall|i: int| 0 <= i < bs.len() - 1 implies #[trigger] bs[i
                            + 1].minute != bs[i].minute by {
                            if i + 1 < bs1.len() {
                                assert(bs[i] == bs1[i] && bs[i + 1] == bs1[i + 1]);
                            } else if i + 1 == bs1.len() {
                                assert(bs[i] == bs1[i] && bs[i + 1] == bs2[0]);
                                assert(bs1[i] == bs1.last());
                            } else {
                                let j = i - bs1.len();
                                assert(bs[i] == bs2[j] && bs[i + 1] == bs2[j + 1]);
                                assert(bs2[j + 1].minute != bs2[j].minute);
                            }
                        }
                    },
                    Err(_) => {},
                }
            },
            Err(_) => {},
        }
    }
}

/// No two consecutive time-bar emissions share the same boundary minute:
/// an emission records its minute, and the next one must land on a
/// different minute to fire at all. The final row is the trailing flush,
/// which no boundary crossing triggers, so it stands outside the claim.
pub proof fn lemma_time_bar_minutes_distinct(
    files: Seq<Seq<Seq<Seq<u8>>>>,
    interval: int,
    pf: nat,
    vf: nat,
)
    ensures
        time_bars_spec(files, interval, pf, vf) matches Ok(bs) ==> forall|i: int|
            0 <= i < bs.len() - 2 ==> #[trigger] bs[i + 1].minute != bs[i].minute,
{
    lemma_t_files_run_minutes(t_init(interval), files, pf, vf);
    match t_files_run(t_init(interval), files, pf, vf) {
        Ok(rf) => {
            let bs0 = rf.1;
            let bs = bs0.push(t_flush_bar(rf.0));
            assert forall|i: int| 0 <= i < bs.len() - 2 implies #[trigger] bs[i + 1].minute != bs[i].minute by {
                assert(bs[i] == bs0[i] && bs[i + 1] == bs0[i + 1]);
            }
        },
        Err(_) => {},
    }
}

proof fn lemma_t_step_wf(s: TStateV, t: TTickV)
    requires
        bar_wf(s.bar),
    ensures
        bar_wf(t_step(s, t).0.bar),
        t_step(s, t).1 matches Some(b) ==> tbar_ok(b),
{
    let s1 = t_seeded(s, t);
    lemma_absorb_wf(s1.bar, t.price as int, t.volume as int, 1);
}

proof fn lemma_t_file_run_wf(s: TStateV, recs: Seq<Seq<Seq<u8>>>, pf: nat, vf: nat)
    requires
        bar_wf(s.bar),
    ensures
        t_file_run(s, recs, pf, vf) matches Ok((sf, bs)) ==> bar_wf(sf.bar) && forall|i: int|
            0 <= i < bs.len() ==> tbar_ok(#[trigger] bs[i]),
    decreases recs.len(),
{
    if recs.len() > 0 {
        lemma_t_file_run_wf(s, recs.drop_last(), pf, vf);
        match t_file_run(s, recs.drop_last(), pf, vf) {
            Ok(r1) => {
                match time_tick_spec(recs.last(), pf, vf) {
                    Ok(t) => {
                        lemma_t_step_wf(r1.0, t);
                    },
                    Err(_) => {},
                }
            },
            Err(_) => {},
        }
    }
}

proof fn lemma_t_files_run_wf(s: TStateV, files: Seq<Seq<Seq<Seq<u8>>>>, pf: nat, vf: nat)
    requires
        bar_wf(s.bar),
    ensures
        t_files_run(s, files, pf, vf) matches Ok((sf, bs)) ==> bar_wf(sf.bar) && forall|i: int|
            0 <= i < bs.len() ==> tbar_ok(#[trigger] bs[i]),
    decreases files.len(),
{
    if files.len() > 0 {
        lemma_t_files_run_wf(s, files.drop_last(), pf, vf);
        match t_files_run(s, files.drop_last(), pf, vf) {
            Ok(r1) => {
                lemma_t_file_run_wf(r1.0, files.last(), pf, vf);
            },
            Err(_) => {},
        }
    }
}

/// For every emitted time bar, the flush row included:
/// `low <= open <= high` and `low <= close <= high`.
pub proof fn lemma_time_bar_bounds(files: Seq<Seq<Seq<Seq<u8>>>>, interval: int, pf: nat, vf: nat)
    ensures
        time_bars_spec(files, interval, pf, vf) matches Ok(bs) ==> forall|i: int|
            0 <= i < bs.len() ==> tbar_ok(#[trigger] bs[i]),
{
    lemma_t_files_run_wf(t_init(interval), files, pf, vf);
    match t_files_run(t_init(interval), files, pf, vf) {
        Ok(rf) => {
            let sf = rf.0;
            let bs0 = rf.1;
            let bs = bs0.push(t_flush_bar(sf));
            assert forall|i: int| 0 <= i < bs.len() implies tbar_ok(#[trigger] bs[i]) by {
                if i < bs0.len() {
                    assert(bs[i] == bs0[i]);
                } else {
                    assert(bs[i] == t_flush_bar(sf));
                }
            }
        },
        Err(_) => {},
    }
}

/// Total traded volume across a time-bar row sequence.
pub open spec fn sum_tbar_vol(bs: Seq<TBarV>) -> int
    decreases bs.len(),
{
    if bs.len() == 0 {
        0
    } else {
        sum_tbar_vol(bs.drop_last()) + bs.last().volume
    }
}

/// Total traded volume across one file's parsed ticks.
pub open spec fn sum_time_tick_vol(recs: Seq<Seq<Seq<u8>>>, pf: nat, vf: nat) -> int
    decreases recs.len(),
{
    if recs.len() == 0 {
        0
    } else {
        sum_time_tick_vol(recs.drop_last(), pf, vf) + (match time_tick_spec(recs.last(), pf, vf) {
            Ok(t) => t.volume as int,
            Err(_) => 0,
        })
    }
}

/// Total traded volume across every tick of every input file.
pub open spec fn sum_time_tick_vol_files(files: Seq<Seq<Seq<Seq<u8>>>>, pf: nat, vf: nat) -> int
    decreases files.len(),
{
    if files.len() == 0 {
        0
    } else {
        sum_time_tick_vol_files(files.drop_last(), pf, vf) + sum_time_tick_vol(
            files.last(),
            pf,
            vf,
        )
    }
}

/// Volume never leaks inside a file run: emitted rows plus the accumulator
/// always account for exactly the ticks absorbed, because an emission clears
/// the accumulator and a seed only ever replaces an empty one.
pub proof fn lemma_t_file_volume(s: TStateV, recs: Seq<Seq<Seq<u8>>>, pf: nat, vf: nat)
    requires
        !s.bar.has_open ==> s.bar.volume == 0,
    ensures
        t_file_run(s, recs, pf, vf) matches Ok((sf, bs)) ==> (!sf.bar.has_open ==> sf.bar.volume
            == 0) && sum_tbar_vol(bs) + sf.bar.volume == s.bar.volume + sum_time_tick_vol(
            recs,
            pf,
            vf,
        ),
    decreases recs.len(),
{
    if recs.len() > 0 {
        lemma_t_file_volume(s, recs.drop_last(), pf, vf);
        match t_file_run(s, recs.drop_last(), pf, vf) {
            Ok(r1) => {
                let s1 = r1.0;
                let bs1 = r1.1;
                match time_tick_spec(recs.last(), pf, vf) {
                    Ok(t) => {
                        if t_step_fits(s1, t) {
                            let sd = t_seeded(s1, t);
                            let b2 = absorb_spec(sd.bar, t.price as int, t.volume as int, 1);
                            assert(sd.bar.volume == s1.bar.volume);
                            assert(b2.volume == s1.bar.volume + t.volume);
                            match t_step(s1, t).1 {
                                Some(bv) => {
                                    assert(bs1.push(bv).drop_last() =~= bs1);
                                    assert(sum_tbar_vol(bs1.push(bv)) == sum_tbar_vol(bs1)
                                        + b2.volume);
                                },
                                None => {},
                            }
                        }
                    },
                    Err(_) => {},
                }
            },
            Err(_) => {},
        }
    }
}

/// The same accounting across the whole run: the accumulator carries over
/// file boundaries unchanged under the time policy.
pub proof fn lemma_t_files_volume(s: TStateV, files: Seq<Seq<Seq<Seq<u8>>>>, pf: nat, vf: nat)
    requires
        !s.bar.has_open ==> s.bar.volume == 0,
    ensures
        t_files_run(s, files, pf, vf) matches Ok((sf, bs)) ==> (!sf.bar.has_open ==> sf.bar.volume
            == 0) && sum_tbar_vol(bs) + sf.bar.volume == s.bar.volume + sum_time_tick_vol_files(
            files,
            pf,
            vf,
        ),
    decreases files.len(),
{
    if files.len() > 0 {
        lemma_t_files_volume(s, files.drop_last(), pf, vf);
        match t_files_run(s, files.drop_last(), pf, vf) {
            Ok(r1) => {
                let s1 = r1.0;
                let bs1 = r1.1;
                lemma_t_file_volume(s1, files.last(), pf, vf);
                match t_file_run(s1, files.last(), pf, vf) {
                    Ok(r2) => {
                        let bs2 = r2.1;
                        lemma_sum_tbar_vol_concat(bs1, bs2);
                    },
                    Err(_) => {},
                }
            },
            Err(_) => {},
        }
    }
}

proof fn lemma_sum_tbar_vol_concat(a: Seq<TBarV>, b: Seq<TBarV>)
    ensures
        sum_tbar_vol(a + b) == sum_tbar_vol(a) + sum_tbar_vol(b),
    decreases b.len(),
{
    if b.len() == 0 {
        assert(a + b =~= a);
    } else {
        lemma_sum_tbar_vol_concat(a, b.drop_last());
        assert((a + b).drop_last() =~= a + b.drop_last());
        assert((a + b).last() == b.last());
    }
}

/// Volume conservation: summing volume across all emitted time bars, the
/// trailing flush included, equals summing volume across every input tick.
pub proof fn lemma_time_volume_conservation(
    files: Seq<Seq<Seq<Seq<u8>>>>,
    interval: int,
    pf: nat,
    vf: nat,
)
    ensures
        time_bars_spec(files, interval, pf, vf) matches Ok(bs) ==> sum_tbar_vol(bs)
            == sum_time_tick_vol_files(files, pf, vf),
{
    lemma_t_files_volume(t_init(interval), files, pf, vf);
    match t_files_run(t_init(interval), files, pf, vf) {
        Ok(rf) => {
            let sf = rf.0;
            let bs0 = rf.1;
            assert(bs0.push(t_flush_bar(sf)).drop_last() =~= bs0);
            assert(sum_tbar_vol(bs0.push(t_flush_bar(sf))) == sum_tbar_vol(bs0) + sf.bar.volume);
        },
        Err(_) => {},
    }
}

/// Extracts the trade a time-bar record carries.
pub fn parse_time_tick(rec: &Record, pf: u32, vf: u32) -> (r: Result<
    (DateTime, u64, u64),
    DataError,
>)
    requires
        pf <= 9,
        vf <= 9,
    ensures
        match r {
            Ok(t) => time_tick_spec(rec@, pf as nat, vf as nat) == Ok::<TTickV, DataError>(
                TTickV { dt: t.0, price: t.1, volume: t.2 },
            ) && dt_wf(t.0) && t.0.year <= 9999,
            Err(e) => time_tick_spec(rec@, pf as nat, vf as nat) == Err::<TTickV, DataError>(e),
        },
{
    proof {
        assert(forall|i: int|
            0 <= i < rec.fields@.len() ==> rec@[i] =~= #[trigger] rec.fields@[i]@);
        assert(rec@.len() == rec.fields@.len());
    }
    if rec.fields.len() <= 3 {
        return Err(DataError::ShortRecord);
    }
    let dt = match parse_bytes(rec.fields[1].as_slice()) {
        Ok(dt) => dt,
        Err(e) => {
            return Err(e);
        },
    };
    let price = match parse_scaled(rec.fields[2].as_slice(), pf) {
        Some(p) => p,
        None => {
            return Err(DataError::BadNumber);
        },
    };
    let volume = match parse_scaled(rec.fields[3].as_slice(), vf) {
        Some(v) => v,
        None => {
            return Err(DataError::BadNumber);
        },
    };
    Ok((dt, price, volume))
}

/// Samples time bars over every record of every input file, files in
/// creation order, and appends the unconditional trailing flush of whatever
/// the accumulator still holds.
pub fn time_bars(interval: u32, pf: u32, vf: u32, files: &Vec<Vec<Record>>) -> (r: Result<
    Vec<TimeBar>,
    DataError,
>)
    requires
        interval >= 1,
        pf <= 9,
        vf <= 9,
    ensures
        match r {
            Ok(bars) => time_bars_spec(files.deep_view(), interval as int, pf as nat, vf as nat)
                == Ok::<Seq<TBarV>, DataError>(bars.deep_view()),
            Err(e) => time_bars_spec(files.deep_view(), interval as int, pf as nat, vf as nat)
                == Err::<Seq<TBarV>, DataError>(e),
        },
{
    let ghost fv = files.deep_view();
    let ghost pfn = pf as nat;
    let ghost vfn = vf as nat;
    let ghost init = t_init(interval as int);

    let mut policy = TimeBars::new(interval);
    let mut bars: Vec<TimeBar> = Vec::new();
    let mut fi: usize = 0;
    assert(fv.subrange(0, 0) =~= Seq::<Seq<Seq<Seq<u8>>>>::empty());
    assert(bars.deep_view() =~= Seq::<TBarV>::empty());
    while fi < files.len()
        invariant
            0 <= fi <= files@.len(),
            fv == files.deep_view(),
            fv.len() == files@.len(),
            pf <= 9,
            vf <= 9,
            pfn == pf as nat,
            vfn == vf as nat,
            init == t_init(interval as int),
            t_inv(policy@),
            t_files_run(init, fv.subrange(0, fi as int), pfn, vfn) == Ok::<
                (TStateV, Seq<TBarV>),
                DataError,
            >((policy@, bars.deep_view())),
        decreases files@.len() - fi,
    {
        let file: &Vec<Record> = &files[fi];
        let ghost s_prev = policy@;
        let ghost bs_prev = bars.deep_view();
        let ghost recs = fv[fi as int];
        proof {
            assert(recs == files@[fi as int].deep_view());
            assert(recs.subrange(0, 0) =~= Seq::<Seq<Seq<u8>>>::empty());
            assert(bars.deep_view().subrange(bs_prev.len() as int, bars.deep_view().len() as int)
                =~= Seq::<TBarV>::empty());
            assert(bars.deep_view().subrange(0, bs_prev.len() as int) =~= bs_prev);
        }
        let mut ri: usize = 0;
        while ri < file.len()
            invariant
                0 <= ri <= file@.len(),
                *file == files@[fi as int],
                0 <= fi < files@.len(),
                fv == files.deep_view(),
                fv.len() == files@.len(),
                recs == files@[fi as int].deep_view(),
                recs.len() == file@.len(),
                pf <= 9,
                vf <= 9,
                pfn == pf as nat,
                vfn == vf as nat,
                init == t_init(interval as int),
                t_files_run(init, fv.subrange(0, fi as int), pfn, vfn) == Ok::<
                    (TStateV, Seq<TBarV>),
                    DataError,
                >((s_prev, bs_prev)),
                t_inv(policy@),
                t_file_run(s_prev, recs.subrange(0, ri as int), pfn, vfn) == Ok::<
                    (TStateV, Seq<TBarV>),
                    DataError,
                >(
                    (
                        policy@,
                        bars.deep_view().subrange(
                            bs_prev.len() as int,
                            bars.deep_view().len() as int,
                        ),
                    ),
                ),
                bars.deep_view().subrange(0, bs_prev.len() as int) == bs_prev,
                bs_prev.len() <= bars.deep_view().len(),
            decreases file@.len() - ri,
        {
            let rec: &Record = &file[ri];
            proof {
                assert(recs[ri as int] == file@[ri as int].deep_view());
                assert(recs.subrange(0, ri + 1).drop_last() =~= recs.subrange(0, ri as int));
                assert(recs.subrange(0, ri + 1).last() == recs[ri as int]);
            }
            let ghost s_in = policy@;
            let ghost dv_in = bars.deep_view();
            let ghost delta_in = dv_in.subrange(bs_prev.len() as int, dv_in.len() as int);
            let t = match parse_time_tick(rec, pf, vf) {
                Ok(t) => t,
                Err(e) => {
                    proof {
                        assert(t_file_run(s_prev, recs.subrange(0, ri + 1), pfn, vfn) == Err::<
                            (TStateV, Seq<TBarV>),
                            DataError,
                        >(e));
                        lemma_t_file_run_err(s_prev, recs, ri + 1, pfn, vfn);
                        assert(fv.subrange(0, fi + 1).drop_last() =~= fv.subrange(0, fi as int));
                        assert(fv.subrange(0, fi + 1).last() == recs);
                        assert(t_files_run(init, fv.subrange(0, fi + 1), pfn, vfn) == Err::<
                            (TStateV, Seq<TBarV>),
                            DataError,
                        >(e));
                        lemma_t_files_run_err(init, fv, fi + 1, pfn, vfn);
                    }
                    return Err(e);
                },
            };
            let (dt, price, volume) = t;
            let ghost tv = TTickV { dt, price, volume };
            let ob = match policy.ingest(&dt, price, volume) {
                Ok(ob) => ob,
                Err(e) => {
                    proof {
                        assert(e == DataError::Overflow);
                        assert(t_file_run(s_prev, recs.subrange(0, ri + 1), pfn, vfn) == Err::<
                            (TStateV, Seq<TBarV>),
                            DataError,
                        >(e));
                        lemma_t_file_run_err(s_prev, recs, ri + 1, pfn, vfn);
                        assert(fv.subrange(0, fi + 1).drop_last() =~= fv.subrange(0, fi as int));
                        assert(fv.subrange(0, fi + 1).last() == recs);
                        assert(t_files_run(init, fv.subrange(0, fi + 1), pfn, vfn) == Err::<
                            (TStateV, Seq<TBarV>),
                            DataError,
                        >(e));
                        lemma_t_files_run_err(init, fv, fi + 1, pfn, vfn);
                    }
                    return Err(e);
                },
            };
            match ob {
                Some(b) => {
                    proof {
                        assert(t_step(s_in, tv).1 == Some(b@));
                    }
                    bars.push(b);
                    proof {
                        assert(bars.deep_view() =~= dv_in.push(b@));
                    }
                },
                None => {},
            }
            proof {
                assert(bars.deep_view().subrange(0, bs_prev.len() as int) =~= bs_prev);
                let newdelta = bars.deep_view().subrange(
                    bs_prev.len() as int,
                    bars.deep_view().len() as int,
                );
                match t_step(s_in, tv).1 {
                    Some(bv) => {
                        assert(newdelta =~= delta_in.push(bv));
                    },
                    None => {
                        assert(newdelta =~= delta_in);
                    },
                }
                assert(t_file_run(s_prev, recs.subrange(0, ri + 1), pfn, vfn) == Ok::<
                    (TStateV, Seq<TBarV>),
                    DataError,
                >((policy@, newdelta)));
            }
            ri = ri + 1;
        }
        proof {
            assert(recs.subrange(0, ri as int) =~= recs);
            assert(fv.subrange(0, fi + 1).drop_last() =~= fv.subrange(0, fi as int));
            assert(fv.subrange(0, fi + 1).last() == recs);
            assert(bars.deep_view() =~= bs_prev + bars.deep_view().subrange(
                bs_prev.len() as int,
                bars.deep_view().len() as int,
            ));
            assert(t_files_run(init, fv.subrange(0, fi + 1), pfn, vfn) == Ok::<
                (TStateV, Seq<TBarV>),
                DataError,
            >((policy@, bars.deep_view())));
        }
        fi = fi + 1;
    }
    proof {
        assert(fv.subrange(0, fi as int) =~= fv);
    }
    let ghost dv_fin = bars.deep_view();
    let last = policy.flush();
    bars.push(last);
    proof {
        assert(bars.deep_view() =~= dv_fin.push(t_flush_bar(policy@)));
    }
    Ok(bars)
}

} // verus!
