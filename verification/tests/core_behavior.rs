use tickbars::bar_state::BarState;
use tickbars::bars::{dollar_bars, BarOptions, Record, Timestamp};
use tickbars::iqfeed_date_time::{format_ts, parse, parse_bytes, round_quarter, DateTime};
use tickbars::num::{parse_digits_u32, parse_scaled};
use tickbars::time_bars::time_bars;
use tickbars::DataError;

fn rec(fields: &[&str]) -> Record {
    Record {
        fields: fields.iter().map(|f| f.as_bytes().to_vec()).collect(),
    }
}

fn opts(threshold: u128) -> BarOptions {
    BarOptions {
        delimiter: String::from(","),
        multiply: 1,
        symbol: String::from("TEST"),
        timestamp_index: 1,
        last_index: 2,
        volume_index: 3,
        timestamp_type: Timestamp::IQFeed,
        dollar_threshold: threshold,
        price_frac: 0,
        volume_frac: 0,
    }
}

#[test]
fn dollar_bar_scenario() {
    // ticks (price=10, volume=100), (20, 200), (5, 50), threshold 3000:
    // tick 2 crosses (1000 + 4000 = 5000), tick 3 seeds a new bar, and the
    // end-of-stream flush reports it.
    let files = vec![vec![
        rec(&["1", "t1", "10", "100"]),
        rec(&["2", "t2", "20", "200"]),
        rec(&["3", "t3", "5", "50"]),
    ]];
    let bars = dollar_bars(&opts(3000), &files).unwrap();
    assert_eq!(bars.len(), 2);
    assert_eq!(bars[0].open_token, b"t1".to_vec());
    assert_eq!(bars[0].open, 10);
    assert_eq!(bars[0].high, 20);
    assert_eq!(bars[0].low, 10);
    assert_eq!(bars[0].close, 20);
    assert_eq!(bars[0].volume, 300);
    assert_eq!(bars[0].cum_dollars, 5000);
    assert_eq!(bars[1].open_token, b"t3".to_vec());
    assert_eq!(bars[1].open, 5);
    assert_eq!(bars[1].high, 5);
    assert_eq!(bars[1].low, 5);
    assert_eq!(bars[1].close, 5);
    assert_eq!(bars[1].volume, 50);
    assert_eq!(bars[1].cum_dollars, 250);
}

#[test]
fn dollar_bar_threshold_holds_for_all_but_flush() {
    let files = vec![vec![
        rec(&["1", "a1", "10", "100"]),
        rec(&["2", "a2", "20", "200"]),
        rec(&["3", "a3", "30", "300"]),
        rec(&["4", "a4", "5", "50"]),
    ]];
    let bars = dollar_bars(&opts(3000), &files).unwrap();
    for bar in bars.iter().take(bars.len() - 1) {
        assert!(bar.cum_dollars >= 3000);
    }
}

#[test]
fn dollar_bar_price_bounds() {
    let files = vec![vec![
        rec(&["1", "b1", "10", "10"]),
        rec(&["2", "b2", "30", "10"]),
        rec(&["3", "b3", "20", "10"]),
        rec(&["4", "b4", "25", "1000"]),
    ]];
    let bars = dollar_bars(&opts(5000), &files).unwrap();
    assert!(!bars.is_empty());
    for bar in &bars {
        assert!(bar.low <= bar.open && bar.open <= bar.high);
        assert!(bar.low <= bar.close && bar.close <= bar.high);
    }
}

#[test]
fn dollar_bar_duplicate_timestamp_suppressed() {
    // Both ticks individually cross the threshold, but they carry the same
    // raw token, so the second cannot emit a separate bar.
    let files = vec![vec![
        rec(&["1", "same", "10", "100"]),
        rec(&["2", "same", "10", "100"]),
    ]];
    let bars = dollar_bars(&opts(100), &files).unwrap();
    // one emission (the first tick) plus the unconditional flush
    assert_eq!(bars.len(), 2);
}

#[test]
fn dollar_bar_volume_conservation() {
    let files = vec![vec![
        rec(&["1", "c1", "10", "100"]),
        rec(&["2", "c2", "20", "200"]),
        rec(&["3", "c3", "5", "50"]),
    ]];
    let bars = dollar_bars(&opts(3000), &files).unwrap();
    let total: u128 = bars.iter().map(|b| b.volume).sum();
    assert_eq!(total, 100 + 200 + 50);
}

#[test]
fn dollar_bar_flush_after_final_emission_is_degenerate() {
    // the only tick both crosses the threshold and emits; the emission
    // clears the accumulator, so the unconditional trailing flush is the
    // degenerate all-zero row and volume is counted exactly once
    let files = vec![vec![rec(&["1", "t1", "10", "100"])]];
    let bars = dollar_bars(&opts(500), &files).unwrap();
    assert_eq!(bars.len(), 2);
    assert_eq!(bars[0].volume, 100);
    assert_eq!(bars[0].cum_dollars, 1000);
    assert_eq!(bars[1].open, 0);
    assert_eq!(bars[1].high, 0);
    assert_eq!(bars[1].low, 0);
    assert_eq!(bars[1].close, 0);
    assert_eq!(bars[1].volume, 0);
    assert_eq!(bars[1].cum_dollars, 0);
    let total: u128 = bars.iter().map(|b| b.volume).sum();
    assert_eq!(total, 100);
}

#[test]
fn dollar_bar_empty_input_flushes_zero_row() {
    let files: Vec<Vec<Record>> = vec![vec![]];
    let bars = dollar_bars(&opts(3000), &files).unwrap();
    assert_eq!(bars.len(), 1);
    assert_eq!(bars[0].open_token, Vec::<u8>::new());
    assert_eq!(bars[0].volume, 0);
    assert_eq!(bars[0].cum_dollars, 0);
}

#[test]
fn dollar_bar_malformed_number_is_fatal() {
    let files = vec![vec![rec(&["1", "t1", "ten", "100"])]];
    assert_eq!(dollar_bars(&opts(3000), &files), Err(DataError::BadNumber));
}

#[test]
fn dollar_bar_short_record_is_fatal() {
    let files = vec![vec![rec(&["1", "t1"])]];
    assert_eq!(dollar_bars(&opts(3000), &files), Err(DataError::ShortRecord));
}

#[test]
fn dollar_bar_scaled_prices() {
    // prices with two decimal places: 10.50 * 100 in hundredths
    let mut o = opts(0);
    o.price_frac = 2;
    o.dollar_threshold = 1000000;
    let files = vec![vec![rec(&["1", "t1", "10.50", "100"])]];
    let bars = dollar_bars(&o, &files).unwrap();
    assert_eq!(bars[0].open, 1050);
    assert_eq!(bars[0].cum_dollars, 105000);
}

#[test]
fn time_bar_scenario() {
    // interval 15, ticks at minutes 5, 12, 15, 16, 30: bars close only at
    // the tick on minute 15 and the tick on minute 30.
    let files = vec![vec![
        rec(&["1", "2021-06-01 09:05:00.000", "10", "100"]),
        rec(&["2", "2021-06-01 09:12:00.000", "12", "100"]),
        rec(&["3", "2021-06-01 09:15:00.000", "14", "100"]),
        rec(&["4", "2021-06-01 09:16:00.000", "16", "100"]),
        rec(&["5", "2021-06-01 09:30:00.000", "18", "100"]),
    ]];
    let bars = time_bars(15, 0, 0, &files).unwrap();
    // two boundary bars, then the unconditional trailing flush, degenerate
    // because the minute-30 emission cleared the accumulator
    assert_eq!(bars.len(), 3);
    assert_eq!(bars[0].minute, 15);
    assert_eq!(bars[1].minute, 30);
    assert_eq!(bars[2].volume, 0);
    assert_eq!(bars[2].cum_dollars, 0);
    // the first bar opened at 09:05, reported at its 15-minute boundary
    assert_eq!(
        bars[0].open_time,
        DateTime { year: 2021, month: 6, day: 1, hour: 9, minute: 0, second: 0, milli: 0 }
    );
    assert_eq!(bars[0].open, 10);
    assert_eq!(bars[0].high, 14);
    assert_eq!(bars[0].low, 10);
    assert_eq!(bars[0].close, 14);
    assert_eq!(bars[0].volume, 300);
    // the second bar opened at 09:16, reported rounded to 09:15
    assert_eq!(
        bars[1].open_time,
        DateTime { year: 2021, month: 6, day: 1, hour: 9, minute: 15, second: 0, milli: 0 }
    );
    assert_eq!(bars[1].volume, 200);
}

#[test]
fn time_bar_never_fires_twice_in_one_minute() {
    let files = vec![vec![
        rec(&["1", "2021-06-01 09:15:01.000", "10", "100"]),
        rec(&["2", "2021-06-01 09:15:02.000", "11", "100"]),
        rec(&["3", "2021-06-01 09:15:03.000", "12", "100"]),
    ]];
    let bars = time_bars(15, 0, 0, &files).unwrap();
    // one boundary emission; the later same-minute trades land in the flush
    assert_eq!(bars.len(), 2);
    assert_eq!(bars[0].minute, 15);
    assert_eq!(bars[0].volume, 100);
    assert_eq!(bars[1].volume, 200);
}

#[test]
fn time_bar_trailing_partial_is_flushed() {
    let files = vec![vec![
        rec(&["1", "2021-06-01 09:15:00.000", "10", "100"]),
        rec(&["2", "2021-06-01 09:16:00.000", "11", "100"]),
    ]];
    let bars = time_bars(15, 0, 0, &files).unwrap();
    assert_eq!(bars.len(), 2);
    assert_eq!(bars[0].volume, 100);
    // the partial bar seeded at 09:16 is flushed, reported at its boundary
    assert_eq!(bars[1].volume, 100);
    assert_eq!(bars[1].open, 11);
    assert_eq!(bars[1].close, 11);
    assert_eq!(
        bars[1].open_time,
        DateTime { year: 2021, month: 6, day: 1, hour: 9, minute: 15, second: 0, milli: 0 }
    );
}

#[test]
fn time_bar_volume_conservation_without_boundary() {
    // a single trade that never reaches a boundary is not dropped: the
    // unconditional flush carries it, so per-file volume is conserved
    let files = vec![vec![rec(&["1", "2021-06-01 09:05:00.000", "10", "100"])]];
    let bars = time_bars(15, 0, 0, &files).unwrap();
    assert_eq!(bars.len(), 1);
    assert_eq!(bars[0].open, 10);
    assert_eq!(bars[0].high, 10);
    assert_eq!(bars[0].low, 10);
    assert_eq!(bars[0].close, 10);
    assert_eq!(bars[0].volume, 100);
    assert_eq!(
        bars[0].open_time,
        DateTime { year: 2021, month: 6, day: 1, hour: 9, minute: 0, second: 0, milli: 0 }
    );
    let total: u128 = bars.iter().map(|b| b.volume).sum();
    assert_eq!(total, 100);
}

#[test]
fn time_bar_bad_timestamp_is_fatal() {
    let files = vec![vec![rec(&["1", "yesterday about noon", "10", "100"])]];
    assert_eq!(time_bars(15, 0, 0, &files), Err(DataError::BadTimestamp));
}

#[test]
fn timestamp_parse_fields() {
    let dt = parse("2021-06-01 09:30:05.123").unwrap();
    assert_eq!(
        dt,
        DateTime { year: 2021, month: 6, day: 1, hour: 9, minute: 30, second: 5, milli: 123 }
    );
}

#[test]
fn timestamp_parse_rejects_short_and_bad() {
    assert!(parse("2021-06-01").is_err());
    assert!(parse("2021-13-01 09:30:05.123").is_err());
    assert!(parse("2021-06-31 09:30:05.123").is_err());
    assert!(parse("2021-06-01 24:30:05.123").is_err());
    assert!(parse("2021-06-0a 09:30:05.123").is_err());
}

#[test]
fn timestamp_parse_leap_day() {
    assert!(parse("2020-02-29 00:00:00.000").is_ok());
    assert!(parse("2021-02-29 00:00:00.000").is_err());
    assert!(parse("2000-02-29 00:00:00.000").is_ok());
    assert!(parse("1900-02-29 00:00:00.000").is_err());
}

#[test]
fn timestamp_format_parse_round_trip() {
    let dt = parse("2021-06-15 10:30:00.500").unwrap();
    let text = format_ts(&dt);
    assert_eq!(text, b"2021-06-15 10:30:00.500".to_vec());
    assert_eq!(parse_bytes(&text), Ok(dt));
    // single-digit fields come back zero-padded
    let dt2 = parse("0987-01-02 03:04:05.006").unwrap();
    assert_eq!(format_ts(&dt2), b"0987-01-02 03:04:05.006".to_vec());
    assert_eq!(parse_bytes(&format_ts(&dt2)), Ok(dt2));
}

#[test]
fn quarter_rounding() {
    let at = |h: u32, mi: u32, s: u32| DateTime {
        year: 2021,
        month: 6,
        day: 1,
        hour: h,
        minute: mi,
        second: s,
        milli: 0,
    };
    // below the midpoint rounds down, at or past it rounds up
    assert_eq!(round_quarter(at(9, 7, 29)), at(9, 0, 0));
    assert_eq!(round_quarter(at(9, 7, 30)), at(9, 15, 0));
    assert_eq!(round_quarter(at(9, 15, 0)), at(9, 15, 0));
    // carry across the hour
    assert_eq!(round_quarter(at(9, 53, 0)), at(10, 0, 0));
    // carry across midnight and the month
    let late = DateTime { year: 2021, month: 6, day: 30, hour: 23, minute: 53, second: 0, milli: 0 };
    assert_eq!(
        round_quarter(late),
        DateTime { year: 2021, month: 7, day: 1, hour: 0, minute: 0, second: 0, milli: 0 }
    );
}

#[test]
fn scaled_decimal_parsing() {
    assert_eq!(parse_scaled(b"10.5", 2), Some(1050));
    assert_eq!(parse_scaled(b"10", 2), Some(1000));
    assert_eq!(parse_scaled(b"0.123", 3), Some(123));
    assert_eq!(parse_scaled(b".5", 1), Some(5));
    assert_eq!(parse_scaled(b"3.", 0), Some(3));
    assert_eq!(parse_scaled(b"3.10", 1), Some(31));
    // precision past the scale is accepted only when it is zeros
    assert_eq!(parse_scaled(b"3.1400", 2), Some(314));
    assert_eq!(parse_scaled(b"3.141", 2), None);
    assert_eq!(parse_scaled(b"", 2), None);
    assert_eq!(parse_scaled(b".", 2), None);
    assert_eq!(parse_scaled(b"1e3", 2), None);
    assert_eq!(parse_scaled(b"99999999999999999999999", 0), None);
}

#[test]
fn digit_run_parsing() {
    assert_eq!(parse_digits_u32(b"15"), Some(15));
    assert_eq!(parse_digits_u32(b"007"), Some(7));
    assert_eq!(parse_digits_u32(b""), None);
    assert_eq!(parse_digits_u32(b"1a"), None);
}

#[test]
fn bar_state_accumulates() {
    let mut s = BarState::new();
    s.seed(10);
    assert!(s.absorb(10, 100, 1));
    assert!(s.absorb(20, 200, 1));
    assert_eq!(s.open, 10);
    assert_eq!(s.high, 20);
    assert_eq!(s.low, 10);
    assert_eq!(s.close, 20);
    assert_eq!(s.volume, 300);
    assert_eq!(s.notional, 5000);
    s.reset();
    assert!(!s.has_open);
    assert_eq!(s.volume, 0);
}

#[test]
fn bar_state_overflow_reports_and_leaves_state() {
    let mut s = BarState::new();
    s.seed(u64::MAX);
    assert!(s.absorb(u64::MAX, u64::MAX, 1));
    // a second full-range notional cannot fit alongside the first
    assert!(!s.absorb(u64::MAX, u64::MAX, u64::MAX));
    assert_eq!(s.volume, u64::MAX as u128);
}

#[test]
fn retention_window() {
    // five minutes sharp is kept; a millisecond past it is swept
    assert!(!tickbars::should_delete(300_000, 0, false));
    assert!(tickbars::should_delete(300_001, 0, false));
    // the file just written is never swept
    assert!(!tickbars::should_delete(10_000_000, 0, true));
}
