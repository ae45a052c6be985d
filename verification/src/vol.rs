use vstd::prelude::*;

use vstd::arithmetic::div_mod::{lemma_fundamental_div_mod, lemma_mod_division_less_than_divisor};

use crate::bars::Record;
use crate::iqfeed_date_time::{ny_epoch_millis, ny_epoch_millis_of, parse_bytes, ts_spec, DateTime};
use crate::num::{parse_scaled, scaled_of};
use crate::DataError;

verus! {

/// Fixed-point scale of a daily return: parts per billion. A return of one
/// billion means the close doubled since the previous day's anchor.
pub open spec fn ret_scale() -> int {
    1_000_000_000
}

/// The largest magnitude a scaled return can take: a full `u64` price move
/// against a price of one.
pub open spec fn ret_bound() -> int {
    0xFFFF_FFFF_FFFF_FFFFint * 1_000_000_000int
}

/// Integer division truncating toward zero, the rounding the estimator's
/// fixed-point arithmetic uses throughout.
pub open spec fn div_trunc(a: int, b: int) -> int {
    if a >= 0 {
        a / b
    } else {
        -((-a) / b)
    }
}

pub open spec fn iabs(x: int) -> int {
    if x >= 0 {
        x
    } else {
        -x
    }
}

/// Truncating division never grows a magnitude: `b * |a trunc-div b| <= |a|`.
pub proof fn lemma_div_trunc_mag(a: int, b: int)
    requires
        b > 0,
    ensures
        b * iabs(div_trunc(a, b)) <= iabs(a),
        iabs(div_trunc(a, b)) <= iabs(a),
        a >= 0 ==> div_trunc(a, b) >= 0,
{
    if a >= 0 {
        let q = a / b;
        let r = a % b;
        lemma_fundamental_div_mod(a, b);
        lemma_mod_division_less_than_divisor(a, b);
        assert(q >= 0 && b * q <= a && q <= a) by (nonlinear_arith)
            requires
                a == b * q + r,
                0 <= r < b,
                b > 0,
                a >= 0,
        ;
    } else {
        let n = -a;
        let q = n / b;
        let r = n % b;
        lemma_fundamental_div_mod(n, b);
        lemma_mod_division_less_than_divisor(n, b);
        assert(q >= 0 && b * q <= n && q <= n) by (nonlinear_arith)
            requires
                n == b * q + r,
                0 <= r < b,
                b > 0,
                n > 0,
        ;
    }
}

/// Truncating division on machine words.
pub fn div_trunc_i128(a: i128, b: i128) -> (r: i128)
    requires
        b > 0,
        a > i128::MIN,
    ensures
        r == div_trunc(a as int, b as int),
{
    proof {
        lemma_div_trunc_mag(a as int, b as int);
    }
    if a >= 0 {
        let q = (a as u128) / (b as u128);
        q as i128
    } else {
        let n = -a;
        let q = (n as u128) / (b as u128);
        -(q as i128)
    }
}

/// Model state of the daily volatility estimator: the current day anchor,
/// its close, the day counter, the bootstrap running sum, and the smoothed
/// value once seeded.
pub struct VStateV {
    pub lookback: int,
    pub n_days: int,
    pub day_dt: DateTime,
    pub day_ms: int,
    pub price: u64,
    pub sma_sum: int,
    pub ewma: Option<int>,
}

/// One emitted row: a day rollover with its return and the smoothed value,
/// which stays undefined until the bootstrap completes.
pub struct VRowV {
    pub start: DateTime,
    pub end: DateTime,
    pub ret: int,
    pub ewma: Option<int>,
}

pub open spec fn v_init(lookback: int, dt: DateTime, ms: int, price: u64) -> VStateV {
    VStateV { lookback, n_days: 1, day_dt: dt, day_ms: ms, price, sma_sum: 0, ewma: None }
}

/// A new day begins when the gap to the current day anchor exceeds 24 hours.
/// A coarse, non-calendar-aware boundary, kept as designed.
pub open spec fn v_rolls(s: VStateV, ms: int) -> bool {
    ms - s.day_ms > 86_400_000
}

/// The scaled return of a rollover against the previous day anchor's close.
pub open spec fn v_ret(s: VStateV, close: u64) -> int {
    div_trunc((close - s.price) * ret_scale(), s.price as int)
}

/// One bar of the finished stream: nothing happens inside a day; a rollover
/// computes the return, accumulates it through day `lookback + 1`, seeds the
/// smoothed value with the plain mean there, and smooths afterwards with
/// weight `2 / (lookback + 1)`.
pub open spec fn v_step(s: VStateV, dt: DateTime, ms: int, close: u64) -> Result<
    (VStateV, Option<VRowV>),
    DataError,
> {
    if !v_rolls(s, ms) {
        Ok((s, None))
    } else if s.price == 0 {
        Err(DataError::ZeroClose)
    } else if s.n_days >= u64::MAX {
        Err(DataError::Overflow)
    } else {
        let d = s.n_days + 1;
        let ret = v_ret(s, close);
        let moved = VStateV { n_days: d, day_dt: dt, day_ms: ms, price: close, ..s };
        if d <= s.lookback {
            let s2 = VStateV { sma_sum: s.sma_sum + ret, ..moved };
            Ok((s2, Some(VRowV { start: s.day_dt, end: dt, ret, ewma: None })))
        } else if d == s.lookback + 1 {
            let sum2 = s.sma_sum + ret;
            let e = div_trunc(sum2, s.lookback);
            let s2 = VStateV { sma_sum: sum2, ewma: Some(e), ..moved };
            Ok((s2, Some(VRowV { start: s.day_dt, end: dt, ret, ewma: Some(e) })))
        } else {
            let e0 = s.ewma->Some_0;
            let e = div_trunc(2 * ret + (s.lookback - 1) * e0, s.lookback + 1);
            let s2 = VStateV { ewma: Some(e), ..moved };
            Ok((s2, Some(VRowV { start: s.day_dt, end: dt, ret, ewma: Some(e) })))
        }
    }
}

/// How many returns the running sum currently holds.
pub open spec fn v_cap(s: VStateV) -> int {
    if s.n_days <= s.lookback + 1 {
        s.n_days - 1
    } else {
        s.lookback
    }
}

/// The estimator's machine bounds: the running sum holds at most `lookback`
/// returns and the smoothed value never escapes a single return's range.
pub open spec fn v_inv(s: VStateV) -> bool {
    &&& 1 <= s.lookback <= 1000
    &&& s.n_days >= 1
    &&& iabs(s.sma_sum) <= v_cap(s) * ret_bound()
    &&& (s.ewma matches Some(e) ==> iabs(e) <= ret_bound())
    &&& (s.n_days > s.lookback ==> s.ewma is Some)
}

/// The daily EWMA volatility estimator.
pub struct VolEstimator {
    pub lookback: u32,
    pub n_days: u64,
    pub day_dt: DateTime,
    pub day_ms: i64,
    pub price: u64,
    pub sma_sum: i128,
    pub ewma: Option<i128>,
}

impl View for VolEstimator {
    type V = VStateV;

    open spec fn view(&self) -> VStateV {
        VStateV {
            lookback: self.lookback as int,
            n_days: self.n_days as int,
            day_dt: self.day_dt,
            day_ms: self.day_ms as int,
            price: self.price,
            sma_sum: self.sma_sum as int,
            ewma: match self.ewma {
                Some(e) => Some(e as int),
                None => None,
            },
        }
    }
}

/// One emitted volatility row.
#[derive(Debug, PartialEq, Eq)]
pub struct VolRow {
    pub start: DateTime,
    pub end: DateTime,
    pub ret: i128,
    pub ewma: Option<i128>,
}

impl View for VolRow {
    type V = VRowV;

    open spec fn view(&self) -> VRowV {
        VRowV {
            start: self.start,
            end: self.end,
            ret: self.ret as int,
            ewma: match self.ewma {
                Some(e) => Some(e as int),
                None => None,
            },
        }
    }
}

impl vstd::view::DeepView for VolRow {
    type V = VRowV;

    open spec fn deep_view(&self) -> VRowV {
        self@
    }
}

impl VolEstimator {
    /// Anchors the estimator at the first bar of the stream.
    pub fn new(lookback: u32, dt: DateTime, ms: i64, price: u64) -> (s: Self)
        requires
            1 <= lookback <= 1000,
        ensures
            s@ == v_init(lookback as int, dt, ms as int, price),
            v_inv(s@),
    {
        VolEstimator { lookback, n_days: 1, day_dt: dt, day_ms: ms, price, sma_sum: 0, ewma: None }
    }

    /// Feeds one bar of the stream; yields a row exactly at day rollovers.
    pub fn step(&mut self, dt: &DateTime, ms: i64, close: u64) -> (r: Result<
        Option<VolRow>,
        DataError,
    >)
        requires
            v_inv(old(self)@),
        ensures
            match r {
                Ok(ob) => {
                    &&& v_step(old(self)@, *dt, ms as int, close) matches Ok(p)
                        && p.0 == final(self)@
                        && (match ob {
                        Some(row) => p.1 == Some(row@),
                        None => p.1 is None,
                    })
                    &&& v_inv(final(self)@)
                },
                Err(e) => v_step(old(self)@, *dt, ms as int, close) == Err::<
                    (VStateV, Option<VRowV>),
                    DataError,
                >(e),
            },
    {
        let gap: i128 = (ms as i128) - (self.day_ms as i128);
        if !(gap > 86_400_000) {
            return Ok(None);
        }
        if self.price == 0 {
            return Err(DataError::ZeroClose);
        }
        if self.n_days >= u64::MAX {
            return Err(DataError::Overflow);
        }
        let diff: i128 = (close as i128) - (self.price as i128);
        let num: i128 = diff * 1_000_000_000;
        let ret = div_trunc_i128(num, self.price as i128);
        proof {
            assert(ret_bound() == 18446744073709551615000000000int);
            lemma_div_trunc_mag(num as int, self.price as int);
            assert(iabs(ret as int) <= ret_bound());
            let s0 = old(self)@;
            assert(iabs(s0.sma_sum) <= 1000 * ret_bound()) by (nonlinear_arith)
                requires
                    iabs(s0.sma_sum) <= v_cap(s0) * ret_bound(),
                    0 <= v_cap(s0) <= 1000,
                    ret_bound() > 0,
            ;
        }
        let start = self.day_dt;
        let end = *dt;
        self.n_days = self.n_days + 1;
        self.day_dt = *dt;
        self.day_ms = ms;
        let prev_price = self.price;
        self.price = close;
        let d = self.n_days;
        if d <= self.lookback as u64 {
            proof {
                let s0 = old(self)@;
                assert(iabs(s0.sma_sum + ret as int) <= (d as int - 1) * ret_bound())
                    by (nonlinear_arith)
                    requires
                        iabs(s0.sma_sum) <= v_cap(s0) * ret_bound(),
                        v_cap(s0) == d as int - 2,
                        iabs(ret as int) <= ret_bound(),
                        ret_bound() > 0,
                ;
            }
            self.sma_sum = self.sma_sum + ret;
            Ok(Some(VolRow { start, end, ret, ewma: None }))
        } else if d == self.lookback as u64 + 1 {
            let sum2 = self.sma_sum + ret;
            proof {
                let s0 = old(self)@;
                let lb = self.lookback as int;
                assert(iabs(sum2 as int) <= lb * ret_bound()) by (nonlinear_arith)
                    requires
                        iabs(s0.sma_sum) <= v_cap(s0) * ret_bound(),
                        v_cap(s0) == lb - 1,
                        iabs(ret as int) <= ret_bound(),
                        sum2 as int == s0.sma_sum + ret as int,
                        ret_bound() > 0,
                        lb >= 1,
                ;
            }
            self.sma_sum = sum2;
            let e = div_trunc_i128(sum2, self.lookback as i128);
            proof {
                lemma_div_trunc_mag(sum2 as int, self.lookback as int);
                let lb = self.lookback as int;
                assert(iabs(e as int) <= ret_bound()) by (nonlinear_arith)
                    requires
                        lb * iabs(e as int) <= iabs(sum2 as int),
                        iabs(sum2 as int) <= lb * ret_bound(),
                        lb >= 1,
                        iabs(e as int) >= 0,
                ;
            }
            self.ewma = Some(e);
            Ok(Some(VolRow { start, end, ret, ewma: Some(e) }))
        } else {
            let e0 = match self.ewma {
                Some(e0) => e0,
                None => {
                    proof {
                        assert(false);
                    }
                    0
                },
            };
            let lb = self.lookback as i128;
            proof {
                let t2v = (lb - 1) as int * (e0 as int);
                assert(iabs(t2v) <= (lb - 1) as int * ret_bound()) by (nonlinear_arith)
                    requires
                        iabs(e0 as int) <= ret_bound(),
                        1 <= lb <= 1000,
                        t2v == (lb - 1) as int * (e0 as int),
                        iabs(e0 as int) >= 0,
                        ret_bound() > 0,
                ;
            }
            let t2: i128 = (lb - 1) * e0;
            let numer: i128 = 2 * ret + t2;
            let e = div_trunc_i128(numer, lb + 1);
            proof {
                lemma_div_trunc_mag(numer as int, (lb + 1) as int);
                assert(iabs(e as int) <= ret_bound()) by (nonlinear_arith)
                    requires
                        ((lb + 1) as int) * iabs(e as int) <= iabs(numer as int),
                        iabs(numer as int) <= ((lb + 1) as int) * ret_bound(),
                        lb >= 1,
                        iabs(e as int) >= 0,
                ;
            }
            self.ewma = Some(e);
            Ok(Some(VolRow { start, end, ret, ewma: Some(e) }))
        }
    }
}

/// Parsing one row of a finished bar file: `date_time` in column 0 and
/// `close` in column 4, with the zone conversion of the timestamp.
pub open spec fn vol_rec_spec(rec: Seq<Seq<u8>>, pf: nat) -> Result<(DateTime, i64, u64), DataError> {
    if rec.len() <= 4 {
        Err(DataError::ShortRecord)
    } else {
        match ts_spec(rec[0]) {
            Option::None => Err(DataError::BadTimestamp),
            Option::Some(dt) => match scaled_of(rec[4], pf) {
                Option::None => Err(DataError::BadNumber),
                Option::Some(c) => match ny_epoch_millis_of(dt) {
                    Option::None => Err(DataError::BadTime),
                    Option::Some(ms) => Ok((dt, ms, c)),
                },
            },
        }
    }
}

/// Extracts one bar row's anchor timestamp, instant and close.
pub fn parse_vol_rec(rec: &Record, pf: u32) -> (r: Result<(DateTime, i64, u64), DataError>)
    requires
        pf <= 9,
    ensures
        r == vol_rec_spec(rec@, pf as nat),
{
    proof {
        assert(forall|i: int|
            0 <= i < rec.fields@.len() ==> rec@[i] =~= #[trigger] rec.fields@[i]@);
        assert(rec@.len() == rec.fields@.len());
    }
    if rec.fields.len() <= 4 {
        return Err(DataError::ShortRecord);
    }
    let dt = match parse_bytes(rec.fields[0].as_slice()) {
        Ok(dt) => dt,
        Err(e) => {
            return Err(e);
        },
    };
    let close = match parse_scaled(rec.fields[4].as_slice(), pf) {
        Some(c) => c,
        None => {
            return Err(DataError::BadNumber);
        },
    };
    let ms = match ny_epoch_millis(&dt) {
        Some(ms) => ms,
        None => {
            return Err(DataError::BadTime);
        },
    };
    Ok((dt, ms, close))
}

/// Feeding the rest of a bar file through the estimator, row by row.
pub open spec fn vol_run(s: VStateV, recs: Seq<Seq<Seq<u8>>>, pf: nat) -> Result<
    (VStateV, Seq<VRowV>),
    DataError,
>
    decreases recs.len(),
{
    if recs.len() == 0 {
        Ok((s, Seq::empty()))
    } else {
        match vol_run(s, recs.drop_last(), pf) {
            Err(e) => Err(e),
            Ok((s1, rows)) => match vol_rec_spec(recs.last(), pf) {
                Err(e) => Err(e),
                Ok(t) => match v_step(s1, t.0, t.1 as int, t.2) {
                    Err(e) => Err(e),
                    Ok(p) => Ok(
                        (
                            p.0,
                            match p.1 {
                                Some(row) => rows.push(row),
                                None => rows,
                            },
                        ),
                    ),
                },
            },
        }
    }
}

/// The whole estimator run: the first bar anchors the first day, every later
/// bar is stepped through, one row per day rollover. An empty file has no
/// anchor and is an error.
pub open spec fn daily_vol_spec(recs: Seq<Seq<Seq<u8>>>, lookback: int, pf: nat) -> Result<
    Seq<VRowV>,
    DataError,
> {
    if recs.len() == 0 {
        Err(DataError::EmptyInput)
    } else {
        match vol_rec_spec(recs[0], pf) {
            Err(e) => Err(e),
            Ok(t) => match vol_run(
                v_init(lookback, t.0, t.1 as int, t.2),
                recs.subrange(1, recs.len() as int),
                pf,
            ) {
                Err(e) => Err(e),
                Ok(p) => Ok(p.1),
            },
        }
    }
}

proof fn lemma_vol_run_err(s: VStateV, recs: Seq<Seq<Seq<u8>>>, k: int, pf: nat)
    requires
        0 <= k <= recs.len(),
        vol_run(s, recs.subrange(0, k), pf) is Err,
    ensures
        vol_run(s, recs, pf) == vol_run(s, recs.subrange(0, k), pf),
    decreases recs.len() - k,
{
    if k < recs.len() {
        assert(recs.subrange(0, k + 1).drop_last() =~= recs.subrange(0, k));
        assert(recs.subrange(0, k + 1).last() == recs[k]);
        lemma_vol_run_err(s, recs, k + 1, pf);
    } else {
        assert(recs.subrange(0, k) =~= recs);
    }
}

/// Reads a finished bar file's rows into the daily volatility series.
pub fn daily_vol(records: &Vec<Record>, lookback: u32, price_frac: u32) -> (r: Result<
    Vec<VolRow>,
    DataError,
>)
    requires
        1 <= lookback <= 1000,
        price_frac <= 9,
    ensures
        match r {
            Ok(rows) => daily_vol_spec(records.deep_view(), lookback as int, price_frac as nat)
                == Ok::<Seq<VRowV>, DataError>(rows.deep_view()),
            Err(e) => daily_vol_spec(records.deep_view(), lookback as int, price_frac as nat)
                == Err::<Seq<VRowV>, DataError>(e),
        },
{
    let ghost rv = records.deep_view();
    let ghost pfn = price_frac as nat;
    if records.len() == 0 {
        return Err(DataError::EmptyInput);
    }
    proof {
        assert(rv[0] == records@[0].deep_view());
    }
    let first = match parse_vol_rec(&records[0], price_frac) {
        Ok(t) => t,
        Err(e) => {
            return Err(e);
        },
    };
    let (dt0, ms0, close0) = first;
    let mut est = VolEstimator::new(lookback, dt0, ms0, close0);
    let ghost init = est@;
    let ghost rest = rv.subrange(1, rv.len() as int);
    let mut rows: Vec<VolRow> = Vec::new();
    let mut i: usize = 1;
    proof {
        assert(rest.subrange(0, 0) =~= Seq::<Seq<Seq<u8>>>::empty());
        assert(rows.deep_view() =~= Seq::<VRowV>::empty());
    }
    while i < records.len()
        invariant
            1 <= i <= records@.len(),
            rv == records.deep_view(),
            rv.len() == records@.len(),
            price_frac <= 9,
            pfn == price_frac as nat,
            rest == rv.subrange(1, rv.len() as int),
            rv.len() > 0,
            vol_rec_spec(rv[0], pfn) == Ok::<(DateTime, i64, u64), DataError>((dt0, ms0, close0)),
            init == v_init(lookback as int, dt0, ms0 as int, close0),
            v_inv(est@),
            vol_run(init, rest.subrange(0, i - 1), pfn) == Ok::<
                (VStateV, Seq<VRowV>),
                DataError,
            >((est@, rows.deep_view())),
        decreases records@.len() - i,
    {
        let rec: &Record = &records[i];
        proof {
            assert(rv[i as int] == records@[i as int].deep_view());
            assert(rest[i - 1] == rv[i as int]);
            assert(rest.subrange(0, i as int).drop_last() =~= rest.subrange(0, i - 1));
            assert(rest.subrange(0, i as int).last() == rest[i - 1]);
        }
        let ghost s_in = est@;
        let ghost dv_in = rows.deep_view();
        let t = match parse_vol_rec(rec, price_frac) {
            Ok(t) => t,
            Err(e) => {
                proof {
                    assert(vol_run(init, rest.subrange(0, i as int), pfn) == Err::<
                        (VStateV, Seq<VRowV>),
                        DataError,
                    >(e));
                    lemma_vol_run_err(init, rest, i as int, pfn);
                    assert(rest.subrange(0, rest.len() as int) =~= rest);
                }
                return Err(e);
            },
        };
        let (dt, ms, close) = t;
        let ob = match est.step(&dt, ms, close) {
            Ok(ob) => ob,
            Err(e) => {
                proof {
                    assert(vol_run(init, rest.subrange(0, i as int), pfn) == Err::<
                        (VStateV, Seq<VRowV>),
                        DataError,
                    >(e));
                    lemma_vol_run_err(init, rest, i as int, pfn);
                    assert(rest.subrange(0, rest.len() as int) =~= rest);
                }
                return Err(e);
            },
        };
        match ob {
            Some(row) => {
                rows.push(row);
                proof {
                    assert(rows.deep_view() =~= dv_in.push(row@));
                }
            },
            None => {},
        }
        proof {
            match v_step(s_in, dt, ms as int, close) {
                Ok(p) => {
                    match p.1 {
                        Some(rw) => {
                            assert(rows.deep_view() =~= dv_in.push(rw));
                        },
                        None => {
                            assert(rows.deep_view() =~= dv_in);
                        },
                    }
                },
                Err(_) => {
                    assert(false);
                },
            }
            assert(vol_run(init, rest.subrange(0, i as int), pfn) == Ok::<
                (VStateV, Seq<VRowV>),
                DataError,
            >((est@, rows.deep_view())));
        }
        i = i + 1;
    }
    proof {
        assert(rest.subrange(0, i - 1) =~= rest);
    }
    Ok(rows)
}

/// Total of the scaled returns over a row sequence.
pub open spec fn sum_rets(rows: Seq<VRowV>) -> int
    decreases rows.len(),
{
    if rows.len() == 0 {
        0
    } else {
        sum_rets(rows.drop_last()) + rows.last().ret
    }
}

proof fn lemma_vol_run_bootstrap(s: VStateV, recs: Seq<Seq<Seq<u8>>>, pf: nat)
    requires
        s.n_days == 1,
        s.sma_sum == 0,
        s.ewma is None,
        s.lookback >= 1,
    ensures
        vol_run(s, recs, pf) matches Ok((sf, rows)) ==> {
            &&& sf.lookback == s.lookback
            &&& sf.n_days == 1 + rows.len()
            &&& (sf.n_days <= s.lookback ==> sf.sma_sum == sum_rets(rows) && sf.ewma is None)
            &&& (forall|i: int|
                0 <= i < rows.len() && i < s.lookback - 1 ==> (#[trigger] rows[i].ewma) is None)
            &&& (rows.len() >= s.lookback ==> rows[s.lookback - 1].ewma == Some(
                div_trunc(sum_rets(rows.subrange(0, s.lookback)), s.lookback),
            ))
        },
    decreases recs.len(),
{
    if recs.len() > 0 {
        lemma_vol_run_bootstrap(s, recs.drop_last(), pf);
        match vol_run(s, recs.drop_last(), pf) {
            Ok(r1) => {
                let s1 = r1.0;
                let rows1 = r1.1;
                match vol_rec_spec(recs.last(), pf) {
                    Ok(t) => {
                        match v_step(s1, t.0, t.1 as int, t.2) {
                            Ok(p) => {
                                match p.1 {
                                    Some(row) => {
                                        let rows = rows1.push(row);
                                        assert(rows.drop_last() =~= rows1);
                                        assert(sum_rets(rows) == sum_rets(rows1) + row.ret);
                                        let lb = s.lookback;
                                        if rows1.len() + 2 == lb + 1 {
                                            assert(rows.subrange(0, lb) =~= rows);
                                        }
                                        if rows1.len() >= lb {
                                            assert(rows.subrange(0, lb) =~= rows1.subrange(0, lb));
                                        }
                                    },
                                    None => {},
                                }
                            },
                            Err(_) => {},
                        }
                    },
                    Err(_) => {},
                }
            },
            Err(_) => {},
        }
    }
}

/// EWMA bootstrap: the first defined smoothed value, reported at day
/// `lookback + 1`, equals the truncated mean of the `lookback` returns
/// accumulated while bootstrapping; every earlier row reports it undefined.
pub proof fn lemma_ewma_bootstrap(recs: Seq<Seq<Seq<u8>>>, lookback: int, pf: nat)
    requires
        lookback >= 1,
    ensures
        daily_vol_spec(recs, lookback, pf) matches Ok(rows) ==> {
            &&& (forall|i: int|
                0 <= i < rows.len() && i < lookback - 1 ==> (#[trigger] rows[i].ewma) is None)
            &&& (rows.len() >= lookback ==> rows[lookback - 1].ewma == Some(
                div_trunc(sum_rets(rows.subrange(0, lookback)), lookback),
            ))
        },
{
    if recs.len() > 0 {
        match vol_rec_spec(recs[0], pf) {
            Ok(t) => {
                lemma_vol_run_bootstrap(
                    v_init(lookback, t.0, t.1 as int, t.2),
                    recs.subrange(1, recs.len() as int),
                    pf,
                );
            },
            Err(_) => {},
        }
    }
}

} // verus!
