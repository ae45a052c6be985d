use vstd::prelude::*;

use crate::bar_state::{
    absorb_fits, absorb_spec, bar_empty, bar_wf, lemma_absorb_wf, seed_spec, BarState, BarV,
};
use crate::num::{parse_scaled, scaled_of};
use crate::DataError;

verus! {

/// How the raw timestamp column is encoded. Dollar bars treat the token as
/// opaque text either way; the variant records the configured source format.
#[derive(Clone, Copy, PartialEq, Eq, Structural, Debug)]
pub enum Timestamp {
    IQFeed,
    Unix,
}

/// Configuration of a dollar-bar run. Prices and volumes are fixed-point:
/// a field's text is scaled by `10^price_frac` (`10^volume_frac`) places, so
/// the threshold is expressed in those combined units.
pub struct BarOptions {
    pub delimiter: String,
    pub multiply: u64,
    pub symbol: String,
    pub timestamp_index: usize,
    pub last_index: usize,
    pub volume_index: usize,
    pub timestamp_type: Timestamp,
    pub dollar_threshold: u128,
    pub price_frac: u32,
    pub volume_frac: u32,
}

pub open spec fn opts_wf(o: BarOptions) -> bool {
    o.price_frac <= 9 && o.volume_frac <= 9
}

/// One delimited data row of a tick file, already split into field bytes.
pub struct Record {
    pub fields: Vec<Vec<u8>>,
}

impl View for Record {
    type V = Seq<Seq<u8>>;

    open spec fn view(&self) -> Seq<Seq<u8>> {
        self.fields.deep_view()
    }
}

/// One trade print: its raw timestamp token kept as opaque bytes, and its
/// price and size as fixed-point integers.
pub struct TickV {
    pub token: Seq<u8>,
    pub price: u64,
    pub volume: u64,
}

pub struct Tick {
    pub token: Vec<u8>,
    pub price: u64,
    pub volume: u64,
}

impl View for Tick {
    type V = TickV;

    open spec fn view(&self) -> TickV {
        TickV { token: self.token@, price: self.price, volume: self.volume }
    }
}

/// What extracting a trade from a record means: the configured columns must
/// exist, and the price and volume fields must be decimal text that fits the
/// configured scales.
pub open spec fn tick_spec(rec: Seq<Seq<u8>>, ti: int, li: int, vi: int, pf: nat, vf: nat) -> Result<
    TickV,
    DataError,
> {
    if rec.len() <= ti || rec.len() <= li || rec.len() <= vi {
        Err(DataError::ShortRecord)
    } else {
        match scaled_of(rec[li], pf) {
            Option::None => Err(DataError::BadNumber),
            Option::Some(p) => match scaled_of(rec[vi], vf) {
                Option::None => Err(DataError::BadNumber),
                Option::Some(v) => Ok(TickV { token: rec[ti], price: p, volume: v }),
            },
        }
    }
}

/// A fresh byte copy of a field.
fn copy_bytes(v: &Vec<u8>) -> (r: Vec<u8>)
    ensures
        r@ == v@,
{
    let mut r: Vec<u8> = Vec::new();
    let mut i: usize = 0;
    while i < v.len()
        invariant
            0 <= i <= v@.len(),
            r@ =~= v@.subrange(0, i as int),
        decreases v@.len() - i,
    {
        r.push(v[i]);
        i = i + 1;
    }
    assert(v@.subrange(0, v@.len() as int) =~= v@);
    r
}

/// Byte-exact comparison of two raw tokens.
fn bytes_eq(a: &Vec<u8>, b: &Vec<u8>) -> (r: bool)
    ensures
        r == (a@ == b@),
{
    if a.len() != b.len() {
        assert(a@ != b@) by {
            assert(a@.len() != b@.len());
        }
        return false;
    }
    let mut i: usize = 0;
    while i < a.len()
        invariant
            0 <= i <= a@.len(),
            a@.len() == b@.len(),
            forall|k: int| 0 <= k < i ==> a@[k] == b@[k],
        decreases a@.len() - i,
    {
        if a[i] != b[i] {
            assert(a@[i as int] != b@[i as int]);
            return false;
        }
        i = i + 1;
    }
    assert(a@ =~= b@);
    true
}

/// Extracts the trade a record carries under the configured column layout.
pub fn parse_tick(rec: &Record, ti: usize, li: usize, vi: usize, pf: u32, vf: u32) -> (r: Result<
    Tick,
    DataError,
>)
    requires
        pf <= 9,
        vf <= 9,
    ensures
        match r {
            Ok(t) => tick_spec(rec@, ti as int, li as int, vi as int, pf as nat, vf as nat)
                == Ok::<TickV, DataError>(t@),
            Err(e) => tick_spec(rec@, ti as int, li as int, vi as int, pf as nat, vf as nat)
                == Err::<TickV, DataError>(e),
        },
{
    proof {
        assert(forall|i: int|
            0 <= i < rec.fields@.len() ==> rec@[i] =~= #[trigger] rec.fields@[i]@);
        assert(rec@.len() == rec.fields@.len());
    }
    if ti >= rec.fields.len() || li >= rec.fields.len() || vi >= rec.fields.len() {
        return Err(DataError::ShortRecord);
    }
    let price = match parse_scaled(rec.fields[li].as_slice(), pf) {
        Some(p) => p,
        None => {
            return Err(DataError::BadNumber);
        },
    };
    let volume = match parse_scaled(rec.fields[vi].as_slice(), vf) {
        Some(v) => v,
        None => {
            return Err(DataError::BadNumber);
        },
    };
    let token = copy_bytes(&rec.fields[ti]);
    Ok(Tick { token, price, volume })
}

/// Model state of the dollar-bar policy: the accumulator, the token that
/// opened the current bar, the previous tick's token (the duplicate guard),
/// and whether the next trade must re-seed.
pub struct DStateV {
    pub thr: int,
    pub mult: int,
    pub new_bar: bool,
    pub bar: BarV,
    pub open_token: Seq<u8>,
    pub guard: Seq<u8>,
}

/// Model of one emitted dollar bar row.
pub struct DBarV {
    pub open_token: Seq<u8>,
    pub open: int,
    pub high: int,
    pub low: int,
    pub close: int,
    pub volume: int,
    pub notional: int,
}

pub open spec fn d_bar_of(s: DStateV) -> DBarV {
    DBarV {
        open_token: s.open_token,
        open: s.bar.open,
        high: s.bar.high,
        low: s.bar.low,
        close: s.bar.close,
        volume: s.bar.volume,
        notional: s.bar.notional,
    }
}

pub open spec fn d_init(thr: int, mult: int) -> DStateV {
    DStateV {
        thr,
        mult,
        new_bar: true,
        bar: bar_empty(),
        open_token: Seq::empty(),
        guard: Seq::empty(),
    }
}

/// Seeding: only when the previous trade closed a bar (or at the start of a
/// file) does the current trade open a new one, with its raw token kept as
/// the bar's open marker.
pub open spec fn d_seeded(s: DStateV, t: TickV) -> DStateV {
    if s.new_bar {
        DStateV { new_bar: false, bar: seed_spec(t.price as int), open_token: t.token, ..s }
    } else {
        s
    }
}

/// Between trades the policy is either about to seed or has an open bar, so
/// absorbing is always legal.
pub open spec fn d_inv(s: DStateV) -> bool {
    s.new_bar || s.bar.has_open
}

pub open spec fn d_step_fits(s: DStateV, t: TickV) -> bool {
    absorb_fits(d_seeded(s, t).bar, t.price as int, t.volume as int, s.mult)
}

/// One ingested trade: seed if due, absorb unconditionally, then emit when
/// the cumulative notional has reached the threshold and the trade's raw
/// token differs from the previous trade's. The guard is updated to the
/// current token win or lose. An emission clears the accumulator back to
/// empty, so the next trade re-seeds and an end-of-input flush right after
/// an emission reports a degenerate all-zero row.
pub open spec fn d_step(s: DStateV, t: TickV) -> (DStateV, Option<DBarV>) {
    let s1 = d_seeded(s, t);
    let b2 = absorb_spec(s1.bar, t.price as int, t.volume as int, s.mult);
    let emit = b2.notional >= s.thr && t.token != s.guard;
    if emit {
        (
            DStateV { bar: bar_empty(), new_bar: true, guard: t.token, ..s1 },
            Some(d_bar_of(DStateV { bar: b2, ..s1 })),
        )
    } else {
        (DStateV { bar: b2, guard: t.token, ..s1 }, None)
    }
}

/// The dollar-bar sampling policy of one run.
pub struct DollarBars {
    pub dollar_threshold: u128,
    pub multiply: u64,
    pub new_bar: bool,
    pub state: BarState,
    pub open_token: Vec<u8>,
    pub guard: Vec<u8>,
}

impl View for DollarBars {
    type V = DStateV;

    open spec fn view(&self) -> DStateV {
        DStateV {
            thr: self.dollar_threshold as int,
            mult: self.multiply as int,
            new_bar: self.new_bar,
            bar: self.state@,
            open_token: self.open_token@,
            guard: self.guard@,
        }
    }
}

/// One emitted dollar bar: its open marker is the raw timestamp token of the
/// trade that opened it, kept byte for byte.
#[derive(Debug, PartialEq, Eq)]
pub struct DollarBar {
    pub open_token: Vec<u8>,
    pub open: u64,
    pub high: u64,
    pub low: u64,
    pub close: u64,
    pub volume: u128,
    pub cum_dollars: u128,
}

impl View for DollarBar {
    type V = DBarV;

    open spec fn view(&self) -> DBarV {
        DBarV {
            open_token: self.open_token@,
            open: self.open as int,
            high: self.high as int,
            low: self.low as int,
            close: self.close as int,
            volume: self.volume as int,
            notional: self.cum_dollars as int,
        }
    }
}

impl DollarBars {
    pub fn new(dollar_threshold: u128, multiply: u64) -> (s: Self)
        ensures
            s@ == d_init(dollar_threshold as int, multiply as int),
    {
        let s = DollarBars {
            dollar_threshold,
            multiply,
            new_bar: true,
            state: BarState::new(),
            open_token: Vec::new(),
            guard: Vec::new(),
        };
        assert(s@.open_token =~= d_init(dollar_threshold as int, multiply as int).open_token);
        assert(s@.guard =~= d_init(dollar_threshold as int, multiply as int).guard);
        s
    }

    /// Marks the start of an input file: its first trade re-seeds the bar,
    /// whatever was accumulating before.
    pub fn begin_file(&mut self)
        ensures
            final(self)@ == (DStateV { new_bar: true, ..old(self)@ }),
    {
        self.new_bar = true;
    }

    /// Ingests one trade; yields the emitted bar when the threshold crossing
    /// and the duplicate-timestamp guard both allow it. Overflow of a
    /// cumulative field is a data error that aborts the run.
    pub fn ingest(&mut self, t: &Tick) -> (r: Result<Option<DollarBar>, DataError>)
        requires
            d_inv(old(self)@),
        ensures
            r is Ok ==> d_inv(final(self)@),
            match r {
                Ok(ob) => {
                    &&& d_step_fits(old(self)@, t@)
                    &&& final(self)@ == d_step(old(self)@, t@).0
                    &&& match ob {
                        Some(b) => d_step(old(self)@, t@).1 == Some(b@),
                        None => d_step(old(self)@, t@).1 is None,
                    }
                },
                Err(e) => e == DataError::Overflow && !d_step_fits(old(self)@, t@),
            },
    {
        if self.new_bar {
            self.state.seed(t.price);
            self.open_token = copy_bytes(&t.token);
            self.new_bar = false;
        }
        let ok = self.state.absorb(t.price, t.volume, self.multiply);
        if !ok {
            return Err(DataError::Overflow);
        }
        let emit = self.state.notional >= self.dollar_threshold && !bytes_eq(
            &t.token,
            &self.guard,
        );
        if emit {
            let bar = DollarBar {
                open_token: copy_bytes(&self.open_token),
                open: self.state.open,
                high: self.state.high,
                low: self.state.low,
                close: self.state.close,
                volume: self.state.volume,
                cum_dollars: self.state.notional,
            };
            self.state.reset();
            self.new_bar = true;
            self.guard = copy_bytes(&t.token);
            Ok(Some(bar))
        } else {
            self.guard = copy_bytes(&t.token);
            Ok(None)
        }
    }

    /// The unconditional end-of-run flush: whatever the accumulator holds is
    /// written as a final row, even when empty or below threshold.
    pub fn flush(&self) -> (b: DollarBar)
        ensures
            b@ == d_bar_of(self@),
    {
        DollarBar {
            open_token: copy_bytes(&self.open_token),
            open: self.state.open,
            high: self.state.high,
            low: self.state.low,
            close: self.state.close,
            volume: self.state.volume,
            cum_dollars: self.state.notional,
        }
    }
}

impl vstd::view::DeepView for Record {
    type V = Seq<Seq<u8>>;

    open spec fn deep_view(&self) -> Seq<Seq<u8>> {
        self@
    }
}

impl vstd::view::DeepView for DollarBar {
    type V = DBarV;

    open spec fn deep_view(&self) -> DBarV {
        self@
    }
}

/// Processing one file's records in order: parse each trade, step the
/// policy, and keep every emitted bar. The first malformed record or
/// overflowing accumulator aborts the file with its error.
pub open spec fn d_file_run(
    s: DStateV,
    recs: Seq<Seq<Seq<u8>>>,
    ti: int,
    li: int,
    vi: int,
    pf: nat,
    vf: nat,
) -> Result<(DStateV, Seq<DBarV>), DataError>
    decreases recs.len(),
{
    if recs.len() == 0 {
        Ok((s, Seq::empty()))
    } else {
        match d_file_run(s, recs.drop_last(), ti, li, vi, pf, vf) {
            Err(e) => Err(e),
            Ok((s1, bs)) => match tick_spec(recs.last(), ti, li, vi, pf, vf) {
                Err(e) => Err(e),
                Ok(t) => if d_step_fits(s1, t) {
                    Ok(
                        (
                            d_step(s1, t).0,
                            match d_step(s1, t).1 {
                                Some(b) => bs.push(b),
                                None => bs,
                            },
                        ),
                    )
                } else {
                    Err(DataError::Overflow)
                },
            },
        }
    }
}

/// Processing the run's files in ascending creation order: each file begins
/// by forcing a re-seed, while the guard and the accumulator carry over.
pub open spec fn d_files_run(
    s: DStateV,
    files: Seq<Seq<Seq<Seq<u8>>>>,
    ti: int,
    li: int,
    vi: int,
    pf: nat,
    vf: nat,
) -> Result<(DStateV, Seq<DBarV>), DataError>
    decreases files.len(),
{
    if files.len() == 0 {
        Ok((s, Seq::empty()))
    } else {
        match d_files_run(s, files.drop_last(), ti, li, vi, pf, vf) {
            Err(e) => Err(e),
            Ok((s1, bs)) => match d_file_run(
                DStateV { new_bar: true, ..s1 },
                files.last(),
                ti,
                li,
                vi,
                pf,
                vf,
            ) {
                Err(e) => Err(e),
                Ok((s2, bs2)) => Ok((s2, bs + bs2)),
            },
        }
    }
}

/// The whole dollar-bar run: every file in order, then the unconditional
/// trailing flush of whatever the accumulator still holds.
pub open spec fn dollar_bars_spec(
    files: Seq<Seq<Seq<Seq<u8>>>>,
    thr: int,
    mult: int,
    ti: int,
    li: int,
    vi: int,
    pf: nat,
    vf: nat,
) -> Result<Seq<DBarV>, DataError> {
    match d_files_run(d_init(thr, mult), files, ti, li, vi, pf, vf) {
        Err(e) => Err(e),
        Ok((sf, bs)) => Ok(bs.push(d_bar_of(sf))),
    }
}

/// Once a prefix of the records fails, the whole file fails the same way.
proof fn lemma_d_file_run_err(
    s: DStateV,
    recs: Seq<Seq<Seq<u8>>>,
    k: int,
    ti: int,
    li: int,
    vi: int,
    pf: nat,
    vf: nat,
)
    requires
        0 <= k <= recs.len(),
        d_file_run(s, recs.subrange(0, k), ti, li, vi, pf, vf) is Err,
    ensures
        d_file_run(s, recs, ti, li, vi, pf, vf) == d_file_run(
            s,
            recs.subrange(0, k),
            ti,
            li,
            vi,
            pf,
            vf,
        ),
    decreases recs.len() - k,
{
    if k < recs.len() {
        assert(recs.subrange(0, k + 1).drop_last() =~= recs.subrange(0, k));
        assert(recs.subrange(0, k + 1).last() == recs[k]);
        lemma_d_file_run_err(s, recs, k + 1, ti, li, vi, pf, vf);
    } else {
        assert(recs.subrange(0, k) =~= recs);
    }
}

/// Once a prefix of the files fails, the whole run fails the same way.
proof fn lemma_d_files_run_err(
    s: DStateV,
    files: Seq<Seq<Seq<Seq<u8>>>>,
    k: int,
    ti: int,
    li: int,
    vi: int,
    pf: nat,
    vf: nat,
)
    requires
        0 <= k <= files.len(),
        d_files_run(s, files.subrange(0, k), ti, li, vi, pf, vf) is Err,
    ensures
        d_files_run(s, files, ti, li, vi, pf, vf) == d_files_run(
            s,
            files.subrange(0, k),
            ti,
            li,
            vi,
            pf,
            vf,
        ),
    decreases files.len() - k,
{
    if k < files.len() {
        assert(files.subrange(0, k + 1).drop_last() =~= files.subrange(0, k));
        assert(files.subrange(0, k + 1).last() == files[k]);
        lemma_d_files_run_err(s, files, k + 1, ti, li, vi, pf, vf);
    } else {
        assert(files.subrange(0, k) =~= files);
    }
}

/// Samples dollar bars over every record of every input file, files in
/// creation order, and appends the unconditional trailing flush.
/// A malformed record or an accumulator overflow aborts the run with that
/// error and no bars.
pub fn dollar_bars(opts: &BarOptions, files: &Vec<Vec<Record>>) -> (r: Result<
    Vec<DollarBar>,
    DataError,
>)
    requires
        opts_wf(*opts),
    ensures
        match r {
            Ok(bars) => dollar_bars_spec(
                files.deep_view(),
                opts.dollar_threshold as int,
                opts.multiply as int,
                opts.timestamp_index as int,
                opts.last_index as int,
                opts.volume_index as int,
                opts.price_frac as nat,
                opts.volume_frac as nat,
            ) == Ok::<Seq<DBarV>, DataError>(bars.deep_view()),
            Err(e) => dollar_bars_spec(
                files.deep_view(),
                opts.dollar_threshold as int,
                opts.multiply as int,
                opts.timestamp_index as int,
                opts.last_index as int,
                opts.volume_index as int,
                opts.price_frac as nat,
                opts.volume_frac as nat,
            ) == Err::<Seq<DBarV>, DataError>(e),
        },
{
    let ghost fv = files.deep_view();
    let ghost ti = opts.timestamp_index as int;
    let ghost li = opts.last_index as int;
    let ghost vi = opts.volume_index as int;
    let ghost pf = opts.price_frac as nat;
    let ghost vf = opts.volume_frac as nat;
    let ghost init = d_init(opts.dollar_threshold as int, opts.multiply as int);

    let mut policy = DollarBars::new(opts.dollar_threshold, opts.multiply);
    let mut bars: Vec<DollarBar> = Vec::new();
    let mut fi: usize = 0;
    assert(fv.subrange(0, 0) =~= Seq::<Seq<Seq<Seq<u8>>>>::empty());
    assert(bars.deep_view() =~= Seq::<DBarV>::empty());
    while fi < files.len()
        invariant
            0 <= fi <= files@.len(),
            fv == files.deep_view(),
            fv.len() == files@.len(),
            opts_wf(*opts),
            ti == opts.timestamp_index as int,
            li == opts.last_index as int,
            vi == opts.volume_index as int,
            pf == opts.price_frac as nat,
            vf == opts.volume_frac as nat,
            init == d_init(opts.dollar_threshold as int, opts.multiply as int),
            d_inv(policy@),
            d_files_run(init, fv.subrange(0, fi as int), ti, li, vi, pf, vf) == Ok::<
                (DStateV, Seq<DBarV>),
                DataError,
            >((policy@, bars.deep_view())),
        decreases files@.len() - fi,
    {
        let file: &Vec<Record> = &files[fi];
        let ghost s_prev = policy@;
        let ghost bs_prev = bars.deep_view();
        let ghost recs = fv[fi as int];
        proof {
            assert(recs == files@[fi as int].deep_view());
        }
        policy.begin_file();
        let ghost s_begin = policy@;
        let mut ri: usize = 0;
        proof {
            assert(recs.subrange(0, 0) =~= Seq::<Seq<Seq<u8>>>::empty());
            assert(bars.deep_view().subrange(bs_prev.len() as int, bars.deep_view().len() as int)
                =~= Seq::<DBarV>::empty());
            assert(bars.deep_view().subrange(0, bs_prev.len() as int) =~= bs_prev);
        }
        while ri < file.len()
            invariant
                0 <= ri <= file@.len(),
                *file == files@[fi as int],
                0 <= fi < files@.len(),
                fv == files.deep_view(),
                fv.len() == files@.len(),
                recs == files@[fi as int].deep_view(),
                recs.len() == file@.len(),
                opts_wf(*opts),
                ti == opts.timestamp_index as int,
                li == opts.last_index as int,
                vi == opts.volume_index as int,
                pf == opts.price_frac as nat,
                vf == opts.volume_frac as nat,
                init == d_init(opts.dollar_threshold as int, opts.multiply as int),
                s_begin == (DStateV { new_bar: true, ..s_prev }),
                d_files_run(init, fv.subrange(0, fi as int), ti, li, vi, pf, vf) == Ok::<
                    (DStateV, Seq<DBarV>),
                    DataError,
                >((s_prev, bs_prev)),
                d_inv(policy@),
                d_file_run(s_begin, recs.subrange(0, ri as int), ti, li, vi, pf, vf) == Ok::<
                    (DStateV, Seq<DBarV>),
                    DataError,
                >(
                    (
                        policy@,
                        bars.deep_view().subrange(
                            bs_prev.len() as int,
                            bars.deep_view().len() as int,
                        ),
                    ),
                ),
                bars.deep_view().subrange(0, bs_prev.len() as int) == bs_prev,
                bs_prev.len() <= bars.deep_view().len(),
            decreases file@.len() - ri,
        {
            let rec: &Record = &file[ri];
            proof {
                assert(recs[ri as int] == file@[ri as int].deep_view());
                assert(recs.subrange(0, ri + 1).drop_last() =~= recs.subrange(0, ri as int));
                assert(recs.subrange(0, ri + 1).last() == recs[ri as int]);
            }
            let ghost s_in = policy@;
            let ghost dv_in = bars.deep_view();
            let ghost delta_in = dv_in.subrange(bs_prev.len() as int, dv_in.len() as int);
            let t = match parse_tick(
                rec,
                opts.timestamp_index,
                opts.last_index,
                opts.volume_index,
                opts.price_frac,
                opts.volume_frac,
            ) {
                Ok(t) => t,
                Err(e) => {
                    proof {
                        assert(d_file_run(s_begin, recs.subrange(0, ri + 1), ti, li, vi, pf, vf)
                            == Err::<(DStateV, Seq<DBarV>), DataError>(e));
                        lemma_d_file_run_err(s_begin, recs, ri + 1, ti, li, vi, pf, vf);
                        assert(fv.subrange(0, fi + 1).drop_last() =~= fv.subrange(0, fi as int));
                        assert(fv.subrange(0, fi + 1).last() == recs);
                        assert(d_files_run(init, fv.subrange(0, fi + 1), ti, li, vi, pf, vf)
                            == Err::<(DStateV, Seq<DBarV>), DataError>(e));
                        lemma_d_files_run_err(init, fv, fi + 1, ti, li, vi, pf, vf);
                    }
                    return Err(e);
                },
            };
            let ob = match policy.ingest(&t) {
                Ok(ob) => ob,
                Err(e) => {
                    proof {
                        assert(e == DataError::Overflow);
                        assert(d_file_run(s_begin, recs.subrange(0, ri + 1), ti, li, vi, pf, vf)
                            == Err::<(DStateV, Seq<DBarV>), DataError>(e));
                        lemma_d_file_run_err(s_begin, recs, ri + 1, ti, li, vi, pf, vf);
                        assert(fv.subrange(0, fi + 1).drop_last() =~= fv.subrange(0, fi as int));
                        assert(fv.subrange(0, fi + 1).last() == recs);
                        assert(d_files_run(init, fv.subrange(0, fi + 1), ti, li, vi, pf, vf)
                            == Err::<(DStateV, Seq<DBarV>), DataError>(e));
                        lemma_d_files_run_err(init, fv, fi + 1, ti, li, vi, pf, vf);
                    }
                    return Err(e);
                },
            };
            match ob {
                Some(b) => {
                    proof {
                        assert(d_step(s_in, t@).1 == Some(b@));
                    }
                    bars.push(b);
                    proof {
                        assert(bars.deep_view() =~= dv_in.push(b@));
                    }
                },
                None => {},
            }
            proof {
                assert(bars.deep_view().subrange(0, bs_prev.len() as int) =~= bs_prev);
                let newdelta = bars.deep_view().subrange(
                    bs_prev.len() as int,
                    bars.deep_view().len() as int,
                );
                match d_step(s_in, t@).1 {
                    Some(bv) => {
                        assert(newdelta =~= delta_in.push(bv));
                    },
                    None => {
                        assert(newdelta =~= delta_in);
                    },
                }
                assert(d_file_run(s_begin, recs.subrange(0, ri + 1), ti, li, vi, pf, vf) == Ok::<
                    (DStateV, Seq<DBarV>),
                    DataError,
                >((policy@, newdelta)));
            }
            ri = ri + 1;
        }
        proof {
            assert(recs.subrange(0, ri as int) =~= recs);
            assert(fv.subrange(0, fi + 1).drop_last() =~= fv.subrange(0, fi as int));
            assert(fv.subrange(0, fi + 1).last() == recs);
            assert(bars.deep_view() =~= bs_prev + bars.deep_view().subrange(
                bs_prev.len() as int,
                bars.deep_view().len() as int,
            ));
            assert(d_files_run(init, fv.subrange(0, fi + 1), ti, li, vi, pf, vf) == Ok::<
                (DStateV, Seq<DBarV>),
                DataError,
            >((policy@, bars.deep_view())));
        }
        fi = fi + 1;
    }
    proof {
        assert(fv.subrange(0, fi as int) =~= fv);
    }
    let ghost dv_fin = bars.deep_view();
    let last = policy.flush();
    bars.push(last);
    proof {
        assert(bars.deep_view() =~= dv_fin.push(d_bar_of(policy@)));
    }
    Ok(bars)
}

/// Every bar a step emits has crossed the configured notional threshold.
pub proof fn lemma_step_emission_threshold(s: DStateV, t: TickV)
    ensures
        d_step(s, t).1 matches Some(b) ==> b.notional >= s.thr,
{
}

proof fn lemma_d_file_run_threshold(
    s: DStateV,
    recs: Seq<Seq<Seq<u8>>>,
    ti: int,
    li: int,
    vi: int,
    pf: nat,
    vf: nat,
)
    ensures
        d_file_run(s, recs, ti, li, vi, pf, vf) matches Ok((sf, bs)) ==> sf.thr == s.thr
            && sf.mult == s.mult && forall|i: int|
            0 <= i < bs.len() ==> #[trigger] bs[i].notional >= s.thr,
    decreases recs.len(),
{
    if recs.len() > 0 {
        lemma_d_file_run_threshold(s, recs.drop_last(), ti, li, vi, pf, vf);
    }
}

proof fn lemma_d_files_run_threshold(
    s: DStateV,
    files: Seq<Seq<Seq<Seq<u8>>>>,
    ti: int,
    li: int,
    vi: int,
    pf: nat,
    vf: nat,
)
    ensures
        d_files_run(s, files, ti, li, vi, pf, vf) matches Ok((sf, bs)) ==> sf.thr == s.thr
            && sf.mult == s.mult && forall|i: int|
            0 <= i < bs.len() ==> #[trigger] bs[i].notional >= s.thr,
    decreases files.len(),
{
    if files.len() > 0 {
        lemma_d_files_run_threshold(s, files.drop_last(), ti, li, vi, pf, vf);
        match d_files_run(s, files.drop_last(), ti, li, vi, pf, vf) {
            Ok(r1) => {
                lemma_d_file_run_threshold(
                    DStateV { new_bar: true, ..r1.0 },
                    files.last(),
                    ti,
                    li,
                    vi,
                    pf,
                    vf,
                );
            },
            Err(_) => {},
        }
    }
}

/// For any tick sequence, every emitted dollar bar except possibly the final
/// flushed one has reached the configured notional threshold.
pub proof fn lemma_dollar_threshold(
    files: Seq<Seq<Seq<Seq<u8>>>>,
    thr: int,
    mult: int,
    ti: int,
    li: int,
    vi: int,
    pf: nat,
    vf: nat,
)
    ensures
        dollar_bars_spec(files, thr, mult, ti, li, vi, pf, vf) matches Ok(bs) ==> forall|i: int|
            0 <= i < bs.len() - 1 ==> #[trigger] bs[i].notional >= thr,
{
    lemma_d_files_run_threshold(d_init(thr, mult), files, ti, li, vi, pf, vf);
    match d_files_run(d_init(thr, mult), files, ti, li, vi, pf, vf) {
        Ok(rf) => {
            let sf = rf.0;
            let bs0 = rf.1;
            assert forall|i: int|
                0 <= i < bs0.push(d_bar_of(sf)).len() - 1 implies #[trigger] bs0.push(
                d_bar_of(sf),
            )[i].notional >= thr by {
                assert(bs0.push(d_bar_of(sf))[i] == bs0[i]);
            }
        },
        Err(_) => {},
    }
}

/// The price bounds every emitted row satisfies.
pub open spec fn dbar_ok(b: DBarV) -> bool {
    0 <= b.low <= b.open <= b.high && b.low <= b.close <= b.high
}

proof fn lemma_d_file_run_wf(
    s: DStateV,
    recs: Seq<Seq<Seq<u8>>>,
    ti: int,
    li: int,
    vi: int,
    pf: nat,
    vf: nat,
)
    requires
        bar_wf(s.bar),
        s.mult >= 0,
    ensures
        d_file_run(s, recs, ti, li, vi, pf, vf) matches Ok((sf, bs)) ==> bar_wf(sf.bar) && sf.mult
            == s.mult && forall|i: int| 0 <= i < bs.len() ==> dbar_ok(#[trigger] bs[i]),
    decreases recs.len(),
{
    if recs.len() > 0 {
        lemma_d_file_run_wf(s, recs.drop_last(), ti, li, vi, pf, vf);
        match d_file_run(s, recs.drop_last(), ti, li, vi, pf, vf) {
            Ok(r1) => {
                match tick_spec(recs.last(), ti, li, vi, pf, vf) {
                    Ok(t) => {
                        lemma_step_wf(r1.0, t);
                    },
                    Err(_) => {},
                }
            },
            Err(_) => {},
        }
    }
}

proof fn lemma_d_files_run_wf(
    s: DStateV,
    files: Seq<Seq<Seq<Seq<u8>>>>,
    ti: int,
    li: int,
    vi: int,
    pf: nat,
    vf: nat,
)
    requires
        bar_wf(s.bar),
        s.mult >= 0,
    ensures
        d_files_run(s, files, ti, li, vi, pf, vf) matches Ok((sf, bs)) ==> bar_wf(sf.bar)
            && sf.mult == s.mult && forall|i: int| 0 <= i < bs.len() ==> dbar_ok(#[trigger] bs[i]),
    decreases files.len(),
{
    if files.len() > 0 {
        lemma_d_files_run_wf(s, files.drop_last(), ti, li, vi, pf, vf);
        match d_files_run(s, files.drop_last(), ti, li, vi, pf, vf) {
            Ok(r1) => {
                lemma_d_file_run_wf(
                    DStateV { new_bar: true, ..r1.0 },
                    files.last(),
                    ti,
                    li,
                    vi,
                    pf,
                    vf,
                );
            },
            Err(_) => {},
        }
    }
}

/// For every emitted dollar bar, the flush row included:
/// `low <= open <= high` and `low <= close <= high`.
pub proof fn lemma_dollar_bar_bounds(
    files: Seq<Seq<Seq<Seq<u8>>>>,
    thr: int,
    mult: int,
    ti: int,
    li: int,
    vi: int,
    pf: nat,
    vf: nat,
)
    requires
        mult >= 0,
    ensures
        dollar_bars_spec(files, thr, mult, ti, li, vi, pf, vf) matches Ok(bs) ==> forall|i: int|
            0 <= i < bs.len() ==> dbar_ok(#[trigger] bs[i]),
{
    lemma_d_files_run_wf(d_init(thr, mult), files, ti, li, vi, pf, vf);
    match d_files_run(d_init(thr, mult), files, ti, li, vi, pf, vf) {
        Ok(rf) => {
            let sf = rf.0;
            let bs0 = rf.1;
            assert forall|i: int| 0 <= i < bs0.push(d_bar_of(sf)).len() implies dbar_ok(
                #[trigger] bs0.push(d_bar_of(sf))[i],
            ) by {
                if i < bs0.len() {
                    assert(bs0.push(d_bar_of(sf))[i] == bs0[i]);
                } else {
                    assert(bs0.push(d_bar_of(sf))[i] == d_bar_of(sf));
                }
            }
        },
        Err(_) => {},
    }
}

/// Total traded volume across a row sequence.
pub open spec fn sum_bar_vol(bs: Seq<DBarV>) -> int
    decreases bs.len(),
{
    if bs.len() == 0 {
        0
    } else {
        sum_bar_vol(bs.drop_last()) + bs.last().volume
    }
}

/// Total traded volume across a file's parsed ticks.
pub open spec fn sum_tick_vol(
    recs: Seq<Seq<Seq<u8>>>,
    ti: int,
    li: int,
    vi: int,
    pf: nat,
    vf: nat,
) -> int
    decreases recs.len(),
{
    if recs.len() == 0 {
        0
    } else {
        sum_tick_vol(recs.drop_last(), ti, li, vi, pf, vf) + (match tick_spec(
            recs.last(),
            ti,
            li,
            vi,
            pf,
            vf,
        ) {
            Ok(t) => t.volume as int,
            Err(_) => 0,
        })
    }
}

/// Total traded notional across a row sequence.
pub open spec fn sum_bar_notional(bs: Seq<DBarV>) -> int
    decreases bs.len(),
{
    if bs.len() == 0 {
        0
    } else {
        sum_bar_notional(bs.drop_last()) + bs.last().notional
    }
}

/// Total notional across a file's parsed ticks, at the configured
/// multiplier.
pub open spec fn sum_tick_notional(
    recs: Seq<Seq<Seq<u8>>>,
    ti: int,
    li: int,
    vi: int,
    pf: nat,
    vf: nat,
    mult: int,
) -> int
    decreases recs.len(),
{
    if recs.len() == 0 {
        0
    } else {
        sum_tick_notional(recs.drop_last(), ti, li, vi, pf, vf, mult) + (match tick_spec(
            recs.last(),
            ti,
            li,
            vi,
            pf,
            vf,
        ) {
            Ok(t) => t.price * t.volume * mult,
            Err(_) => 0,
        })
    }
}

/// The volume still awaiting emission: whatever the accumulator holds,
/// unless the state is marked to re-seed, in which case the next trade
/// discards it.
pub open spec fn d_pending(s: DStateV) -> int {
    if s.new_bar {
        0
    } else {
        s.bar.volume
    }
}

/// The notional still awaiting emission, the same way.
pub open spec fn d_pending_notional(s: DStateV) -> int {
    if s.new_bar {
        0
    } else {
        s.bar.notional
    }
}

/// An emission leaves the accumulator empty, so a state marked to re-seed
/// inside one file holds nothing: the flush row after it is all-zero.
pub proof fn lemma_reseed_is_empty(
    s: DStateV,
    recs: Seq<Seq<Seq<u8>>>,
    ti: int,
    li: int,
    vi: int,
    pf: nat,
    vf: nat,
)
    requires
        s.new_bar ==> s.bar == bar_empty(),
    ensures
        d_file_run(s, recs, ti, li, vi, pf, vf) matches Ok((sf, bs)) ==> (sf.new_bar ==> sf.bar
            == bar_empty()),
    decreases recs.len(),
{
    if recs.len() > 0 {
        lemma_reseed_is_empty(s, recs.drop_last(), ti, li, vi, pf, vf);
    }
}

/// Neither volume nor notional leaks inside a file run: emitted rows plus
/// the pending accumulator always account for exactly the ticks absorbed.
pub proof fn lemma_volume_invariant(
    s: DStateV,
    recs: Seq<Seq<Seq<u8>>>,
    ti: int,
    li: int,
    vi: int,
    pf: nat,
    vf: nat,
)
    ensures
        d_file_run(s, recs, ti, li, vi, pf, vf) matches Ok((sf, bs)) ==> sum_bar_vol(bs)
            + d_pending(sf) == d_pending(s) + sum_tick_vol(recs, ti, li, vi, pf, vf)
            && sum_bar_notional(bs) + d_pending_notional(sf) == d_pending_notional(s)
            + sum_tick_notional(recs, ti, li, vi, pf, vf, s.mult),
    decreases recs.len(),
{
    if recs.len() > 0 {
        lemma_volume_invariant(s, recs.drop_last(), ti, li, vi, pf, vf);
        lemma_d_file_run_threshold(s, recs.drop_last(), ti, li, vi, pf, vf);
        match d_file_run(s, recs.drop_last(), ti, li, vi, pf, vf) {
            Ok(r1) => {
                let s1 = r1.0;
                let bs1 = r1.1;
                match tick_spec(recs.last(), ti, li, vi, pf, vf) {
                    Ok(t) => {
                        if d_step_fits(s1, t) {
                            let sd = d_seeded(s1, t);
                            let b2 = absorb_spec(sd.bar, t.price as int, t.volume as int, s1.mult);
                            assert(s1.mult == s.mult);
                            assert(sd.bar.volume == d_pending(s1));
                            assert(b2.volume == d_pending(s1) + t.volume);
                            assert(sd.bar.notional == d_pending_notional(s1));
                            assert(b2.notional == d_pending_notional(s1) + t.price * t.volume
                                * s.mult);
                            match d_step(s1, t).1 {
                                Some(bv) => {
                                    assert(bs1.push(bv).drop_last() =~= bs1);
                                    assert(sum_bar_vol(bs1.push(bv)) == sum_bar_vol(bs1)
                                        + b2.volume);
                                    assert(sum_bar_notional(bs1.push(bv)) == sum_bar_notional(bs1)
                                        + b2.notional);
                                },
                                None => {},
                            }
                        }
                    },
                    Err(_) => {},
                }
            },
            Err(_) => {},
        }
    }
}

/// Volume conservation: summing volume across all bars emitted from one
/// input file, the trailing flush included, equals summing volume across the
/// file's ticks; and likewise for the accumulated notional. Emissions clear
/// the accumulator, so a file ending exactly at an emission flushes an
/// all-zero row and nothing is counted twice.
pub proof fn lemma_volume_conservation(
    recs: Seq<Seq<Seq<u8>>>,
    thr: int,
    mult: int,
    ti: int,
    li: int,
    vi: int,
    pf: nat,
    vf: nat,
)
    ensures
        d_file_run(d_init(thr, mult), recs, ti, li, vi, pf, vf) matches Ok((sf, bs)) ==> (
        dollar_bars_spec(seq![recs], thr, mult, ti, li, vi, pf, vf) == Ok::<Seq<DBarV>, DataError>(
            bs.push(d_bar_of(sf)),
        ) && sum_bar_vol(bs.push(d_bar_of(sf))) == sum_tick_vol(recs, ti, li, vi, pf, vf)
            && sum_bar_notional(bs.push(d_bar_of(sf))) == sum_tick_notional(
            recs,
            ti,
            li,
            vi,
            pf,
            vf,
            mult,
        )),
{
    let init = d_init(thr, mult);
    let one = seq![recs];
    reveal_with_fuel(d_files_run, 2);
    assert(one.drop_last() =~= Seq::<Seq<Seq<Seq<u8>>>>::empty());
    assert(one.last() == recs);
    assert((DStateV { new_bar: true, ..init }) == init);
    lemma_volume_invariant(init, recs, ti, li, vi, pf, vf);
    lemma_reseed_is_empty(init, recs, ti, li, vi, pf, vf);
    match d_file_run(init, recs, ti, li, vi, pf, vf) {
        Ok(rf) => {
            let sf = rf.0;
            let bs = rf.1;
            assert(Seq::<DBarV>::empty() + bs =~= bs);
            assert(d_files_run(init, one, ti, li, vi, pf, vf) == Ok::<
                (DStateV, Seq<DBarV>),
                DataError,
            >((sf, bs)));
            assert(bs.push(d_bar_of(sf)).drop_last() =~= bs);
            assert(sum_bar_vol(bs.push(d_bar_of(sf))) == sum_bar_vol(bs) + sf.bar.volume);
            assert(sum_bar_notional(bs.push(d_bar_of(sf))) == sum_bar_notional(bs)
                + sf.bar.notional);
            assert(d_pending(sf) == sf.bar.volume);
            assert(d_pending_notional(sf) == sf.bar.notional);
        },
        Err(_) => {},
    }
}

/// Two consecutive trades carrying the identical raw timestamp token never
/// produce two separate emissions: after the first is ingested the guard
/// holds that token, so the second cannot emit.
pub proof fn lemma_duplicate_token_suppressed(s: DStateV, t1: TickV, t2: TickV)
    requires
        t1.token == t2.token,
    ensures
        d_step(d_step(s, t1).0, t2).1 is None,
{
}

/// A step keeps the row bounds of the accumulator, and any bar it emits
/// satisfies them.
pub proof fn lemma_step_wf(s: DStateV, t: TickV)
    requires
        bar_wf(s.bar),
        s.mult >= 0,
    ensures
        bar_wf(d_step(s, t).0.bar),
        d_step(s, t).1 matches Some(b) ==> 0 <= b.low <= b.open <= b.high && b.low <= b.close
            <= b.high,
{
    let s1 = d_seeded(s, t);
    lemma_absorb_wf(s1.bar, t.price as int, t.volume as int, s.mult);
}

} // verus!
