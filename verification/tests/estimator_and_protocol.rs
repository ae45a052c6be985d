use chrono::TimeZone;

use tickbars::bars::Record;
use tickbars::batch::{collect_errors, ProcessingError};
use tickbars::ingest::{
    health_exit_code, health_ok, ingest_step, is_tick_file, lookup_display_line,
    lookup_should_stop, market_hours_blocked, sort_by_created, split_fields, TickAction,
};
use tickbars::iqfeed_date_time::{ny_epoch_millis, parse};
use tickbars::vol::daily_vol;
use tickbars::DataError;

fn rec(fields: &[&str]) -> Record {
    Record {
        fields: fields.iter().map(|f| f.as_bytes().to_vec()).collect(),
    }
}

/// A bar-file row: date_time, open, high, low, close, volume, cum_dollars.
fn bar_row(date_time: &str, close: &str) -> Record {
    rec(&[date_time, "0", "0", "0", close, "0", "0"])
}

fn day_stamps(n: usize) -> Vec<String> {
    // spaced 25 hours apart so every consecutive pair exceeds the 24-hour
    // day-boundary heuristic, placed in midsummer away from any DST shift
    let start = chrono::NaiveDate::from_ymd_opt(2021, 6, 1)
        .unwrap()
        .and_hms_opt(0, 0, 0)
        .unwrap();
    (0..n)
        .map(|i| {
            let dt = start + chrono::Duration::hours(25 * i as i64);
            dt.format("%Y-%m-%d %H:%M:%S%.3f").to_string()
        })
        .collect()
}

#[test]
fn ewma_bootstrap_at_day_twenty_one() {
    // 21 consecutive daily bars with a flat close: 20 rollovers, every
    // return zero, the smoothed value is undefined through the bootstrap and
    // first defined at day 21, equal to the mean of the 20 returns.
    let stamps = day_stamps(21);
    let records: Vec<Record> = stamps.iter().map(|s| bar_row(s, "100")).collect();
    let rows = daily_vol(&records, 20, 0).unwrap();
    assert_eq!(rows.len(), 20);
    for row in rows.iter().take(19) {
        assert_eq!(row.ewma, None);
        assert_eq!(row.ret, 0);
    }
    assert_eq!(rows[19].ewma, Some(0));
}

#[test]
fn ewma_seed_is_mean_of_returns() {
    // lookback 1: the first rollover's return seeds the smoothed value
    // directly, and the next rollover smooths with weight 2 / (1 + 1) = 1.
    let stamps = day_stamps(3);
    let records = vec![
        bar_row(&stamps[0], "100"),
        bar_row(&stamps[1], "150"),
        bar_row(&stamps[2], "120"),
    ];
    let rows = daily_vol(&records, 1, 0).unwrap();
    assert_eq!(rows.len(), 2);
    // (150 - 100) * 1e9 / 100
    assert_eq!(rows[0].ret, 500_000_000);
    assert_eq!(rows[0].ewma, Some(500_000_000));
    // (120 - 150) * 1e9 / 150, truncated toward zero
    assert_eq!(rows[1].ret, -200_000_000);
    assert_eq!(rows[1].ewma, Some(-200_000_000));
}

#[test]
fn ewma_bootstrap_counts_varied_returns() {
    // lookback 3: three returns accumulate, and day 4 reports their mean
    let stamps = day_stamps(5);
    let records = vec![
        bar_row(&stamps[0], "100"),
        bar_row(&stamps[1], "110"), // +0.10
        bar_row(&stamps[2], "121"), // +0.10
        bar_row(&stamps[3], "121"), // 0
        bar_row(&stamps[4], "242"), // +1.00
    ];
    let rows = daily_vol(&records, 3, 0).unwrap();
    assert_eq!(rows.len(), 4);
    assert_eq!(rows[0].ewma, None);
    assert_eq!(rows[1].ewma, None);
    // mean of (0.10, 0.10, 0) in parts per billion
    assert_eq!(rows[2].ewma, Some((100_000_000 + 100_000_000 + 0) / 3));
    // smoothed: (2 * 1e9 + 2 * 66_666_666) / 4
    assert_eq!(
        rows[3].ewma,
        Some((2 * 1_000_000_000 + 2 * 66_666_666) / 4)
    );
}

#[test]
fn vol_rows_carry_day_anchors() {
    let stamps = day_stamps(2);
    let records = vec![bar_row(&stamps[0], "100"), bar_row(&stamps[1], "110")];
    let rows = daily_vol(&records, 20, 0).unwrap();
    assert_eq!(rows.len(), 1);
    assert_eq!(rows[0].start, parse(&stamps[0]).unwrap());
    assert_eq!(rows[0].end, parse(&stamps[1]).unwrap());
}

#[test]
fn vol_same_day_bars_do_not_roll() {
    let records = vec![
        bar_row("2021-06-01 09:00:00.000", "100"),
        bar_row("2021-06-01 16:00:00.000", "120"),
        bar_row("2021-06-02 10:00:00.000", "130"),
    ];
    // a gap of 24 hours or less never rolls; only spans beyond it do
    let rows = daily_vol(&records, 20, 0).unwrap();
    assert_eq!(rows.len(), 1);
    assert_eq!(rows[0].end, parse("2021-06-02 10:00:00.000").unwrap());
}

#[test]
fn vol_empty_file_is_an_error() {
    let records: Vec<Record> = vec![];
    assert_eq!(daily_vol(&records, 20, 0), Err(DataError::EmptyInput));
}

#[test]
fn vol_zero_close_is_an_error() {
    let stamps = day_stamps(2);
    let records = vec![bar_row(&stamps[0], "0"), bar_row(&stamps[1], "10")];
    assert_eq!(daily_vol(&records, 20, 0), Err(DataError::ZeroClose));
}

#[test]
fn batch_collects_every_failure() {
    let results: Vec<Result<(), u32>> = vec![Ok(()), Err(7), Ok(()), Err(9), Ok(())];
    let agg: ProcessingError<u32> = collect_errors(results).unwrap_err();
    assert_eq!(agg.errs, vec![7, 9]);
}

#[test]
fn batch_of_successes_is_a_success() {
    let results: Vec<Result<(), u32>> = vec![Ok(()), Ok(()), Ok(())];
    assert!(collect_errors(results).is_ok());
}

#[test]
fn batch_all_failures() {
    let results: Vec<Result<(), &str>> = vec![Err("a"), Err("b")];
    let agg = collect_errors(results).unwrap_err();
    assert_eq!(agg.errs, vec!["a", "b"]);
}

#[test]
fn split_fields_at_commas() {
    let fields = split_fields(b"a,bb,,c", b',');
    assert_eq!(
        fields,
        vec![b"a".to_vec(), b"bb".to_vec(), b"".to_vec(), b"c".to_vec()]
    );
    assert_eq!(split_fields(b"", b','), vec![b"".to_vec()]);
}

#[test]
fn ingest_classifies_provider_lines() {
    let err_line = split_fields(b"1,E,no data", b',');
    assert_eq!(ingest_step(&err_line, 0, 0), Ok(TickAction::ProviderError));
    let end_line = split_fields(b"1,!ENDMSG!", b',');
    assert_eq!(ingest_step(&end_line, 0, 0), Ok(TickAction::EndOfData));
    let short_line = split_fields(b"loneley", b',');
    assert_eq!(ingest_step(&short_line, 0, 0), Err(DataError::ShortRecord));
    let bad_line = split_fields(b"1,not a date,2", b',');
    assert_eq!(ingest_step(&bad_line, 0, 0), Err(DataError::BadTimestamp));
}

#[test]
fn ingest_moves_watermarks() {
    // cross-check the zone conversion against chrono directly
    let expected_ms = chrono_tz::America::New_York
        .with_ymd_and_hms(2021, 6, 15, 10, 30, 0)
        .unwrap()
        .timestamp_millis()
        + 500;
    let dt = parse("2021-06-15 10:30:00.500").unwrap();
    assert_eq!(ny_epoch_millis(&dt), Some(expected_ms));

    let line = split_fields(b"1,2021-06-15 10:30:00.500,100,5", b',');
    // strictly past the high watermark: kept, and the watermark moves
    match ingest_step(&line, expected_ms - 10, expected_ms - 5).unwrap() {
        TickAction::Trade { keep, ms, new_min_ms, new_max_ms, .. } => {
            assert!(keep);
            assert_eq!(ms, expected_ms);
            assert_eq!(new_min_ms, expected_ms - 10);
            assert_eq!(new_max_ms, expected_ms);
        }
        other => panic!("expected a trade, got {:?}", other),
    }
    // at or before the watermark: skipped; an older trade moves the low mark
    match ingest_step(&line, expected_ms + 100, expected_ms + 200).unwrap() {
        TickAction::Trade { keep, new_min_ms, new_max_ms, .. } => {
            assert!(!keep);
            assert_eq!(new_min_ms, expected_ms);
            assert_eq!(new_max_ms, expected_ms + 200);
        }
        other => panic!("expected a trade, got {:?}", other),
    }
}

#[test]
fn market_hours_guard() {
    // Tuesday 10:00 New York: blocked without the override
    assert!(market_hours_blocked(false, 1, 10));
    assert!(!market_hours_blocked(true, 1, 10));
    // weekend and off-hours pass
    assert!(!market_hours_blocked(false, 5, 10));
    assert!(!market_hours_blocked(false, 6, 10));
    assert!(!market_hours_blocked(false, 1, 9));
    assert!(!market_hours_blocked(false, 1, 16));
}

#[test]
fn health_probe_response() {
    assert!(health_ok(b"S,CURRENT PROTOCOL,5.1"));
    assert!(!health_ok(b"S,CURRENT PROTOCOL,6.2"));
    assert!(!health_ok(b""));
    assert_eq!(health_exit_code(true), 0);
    assert_eq!(health_exit_code(false), 2);
}

#[test]
fn lookup_lines() {
    assert_eq!(lookup_display_line(b"A,B,C"), b"A\tB\tC".to_vec());
    assert!(lookup_should_stop(b"1,!ENDMSG!,"));
    assert!(!lookup_should_stop(b"AAPL,7,APPLE INC"));
}

#[test]
fn files_ordered_by_creation_time() {
    let sorted = sort_by_created(vec![(30, 0), (10, 1), (20, 2)]);
    assert_eq!(sorted, vec![(10, 1), (20, 2), (30, 0)]);
}

#[test]
fn tick_file_filter() {
    assert!(is_tick_file(b"2021-06-01-09-30-00.csv"));
    assert!(!is_tick_file(b"meta.toml"));
    assert!(!is_tick_file(b"csv"));
}
