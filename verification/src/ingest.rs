use vstd::prelude::*;
use vstd::multiset::Multiset;

use crate::iqfeed_date_time::{ny_epoch_millis, ny_epoch_millis_of, parse_bytes, ts_spec, DateTime};
use crate::DataError;

verus! {

/// Splitting a protocol line at a delimiter byte, from `cur`, with the
/// current field starting at `start`.
pub open spec fn split_from(s: Seq<u8>, d: u8, start: int, cur: int) -> Seq<Seq<u8>>
    decreases s.len() - cur,
{
    if cur >= s.len() {
        seq![s.subrange(start, s.len() as int)]
    } else if s[cur] == d {
        seq![s.subrange(start, cur)] + split_from(s, d, cur + 1, cur + 1)
    } else {
        split_from(s, d, start, cur + 1)
    }
}

/// The fields of a delimited line; an empty line is one empty field.
pub open spec fn split_spec(s: Seq<u8>, d: u8) -> Seq<Seq<u8>> {
    split_from(s, d, 0, 0)
}

/// Splits one line into its fields at the delimiter.
pub fn split_fields(line: &[u8], d: u8) -> (r: Vec<Vec<u8>>)
    ensures
        r.deep_view() == split_spec(line@, d),
{
    let mut out: Vec<Vec<u8>> = Vec::new();
    let mut cur: Vec<u8> = Vec::new();
    let mut i: usize = 0;
    let ghost s = line@;
    let ghost mut start: int = 0;
    proof {
        assert(out.deep_view() =~~= Seq::<Seq<u8>>::empty());
        assert(cur@ =~= s.subrange(0, 0));
    }
    while i < line.len()
        invariant
            0 <= start <= i <= s.len(),
            s == line@,
            cur@ == s.subrange(start, i as int),
            split_spec(s, d) == out.deep_view() + split_from(s, d, start, i as int),
        decreases s.len() - i,
    {
        let ghost out_pre = out.deep_view();
        let b = line[i];
        if b == d {
            out.push(cur);
            cur = Vec::new();
            proof {
                assert(out.deep_view() =~~= out_pre.push(s.subrange(start, i as int)));
                assert(out_pre + (seq![s.subrange(start, i as int)] + split_from(
                    s,
                    d,
                    i + 1,
                    i + 1,
                )) =~= out.deep_view() + split_from(s, d, i + 1, i + 1));
                start = i + 1;
                assert(cur@ =~= s.subrange(start, i + 1));
            }
        } else {
            proof {
                assert(cur@.push(b) =~= s.subrange(start, i + 1));
            }
            cur.push(b);
        }
        i = i + 1;
    }
    let ghost out_pre = out.deep_view();
    out.push(cur);
    proof {
        assert(out.deep_view() =~~= out_pre.push(s.subrange(start, s.len() as int)));
        assert(out_pre + seq![s.subrange(start, s.len() as int)] =~= out.deep_view());
    }
    out
}

/// The provider's error marker field.
pub open spec fn err_marker() -> Seq<u8> {
    seq![69u8]
}

/// The provider's end-of-stream marker field.
pub open spec fn endmsg_marker() -> Seq<u8> {
    seq![33u8, 69u8, 78u8, 68u8, 77u8, 83u8, 71u8, 33u8]
}

fn is_err_marker(f: &Vec<u8>) -> (r: bool)
    ensures
        r == (f@ == err_marker()),
{
    let r = f.len() == 1 && f[0] == 69;
    proof {
        if r {
            assert(f@ =~= err_marker());
        } else {
            if f@ == err_marker() {
                assert(f@.len() == 1 && f@[0] == 69);
            }
        }
    }
    r
}

fn is_endmsg_marker(f: &Vec<u8>) -> (r: bool)
    ensures
        r == (f@ == endmsg_marker()),
{
    if f.len() != 8 {
        proof {
            if f@ == endmsg_marker() {
                assert(f@.len() == 8);
            }
        }
        return false;
    }
    let r = f[0] == 33 && f[1] == 69 && f[2] == 78 && f[3] == 68 && f[4] == 77 && f[5] == 83
        && f[6] == 71 && f[7] == 33;
    proof {
        if r {
            assert(f@ =~= endmsg_marker());
        } else {
            if f@ == endmsg_marker() {
                assert(f@[0] == 33 && f@[1] == 69 && f@[2] == 78 && f@[3] == 68 && f@[4] == 77
                    && f@[5] == 83 && f@[6] == 71 && f@[7] == 33);
            }
        }
    }
    r
}

/// What one line of a historical tick download calls for: surface the
/// provider's error, stop at the end marker, or take the trade's parsed
/// time, keep it when it lies past the high watermark, and move both
/// watermarks.
#[derive(Clone, Copy, PartialEq, Eq, Structural, Debug)]
pub enum TickAction {
    ProviderError,
    EndOfData,
    Trade { keep: bool, dt: DateTime, ms: i64, new_min_ms: i64, new_max_ms: i64 },
}

pub open spec fn ingest_spec(fields: Seq<Seq<u8>>, min_ms: int, max_ms: int) -> Result<
    TickAction,
    DataError,
> {
    if fields.len() < 2 {
        Err(DataError::ShortRecord)
    } else if fields[1] == err_marker() {
        Ok(TickAction::ProviderError)
    } else if fields[1] == endmsg_marker() {
        Ok(TickAction::EndOfData)
    } else {
        match ts_spec(fields[1]) {
            Option::None => Err(DataError::BadTimestamp),
            Option::Some(dt) => match ny_epoch_millis_of(dt) {
                Option::None => Err(DataError::BadTime),
                Option::Some(ms) => Ok(
                    TickAction::Trade {
                        keep: ms > max_ms,
                        dt,
                        ms,
                        new_min_ms: if ms < min_ms {
                            ms as i64
                        } else {
                            min_ms as i64
                        },
                        new_max_ms: if ms > max_ms {
                            ms as i64
                        } else {
                            max_ms as i64
                        },
                    },
                ),
            },
        }
    }
}

/// Decides what one downloaded line means against the current ingestion
/// watermarks. A trade is written only when it lies strictly past the high
/// watermark; either watermark moves when the trade falls outside it.
pub fn ingest_step(fields: &Vec<Vec<u8>>, min_ms: i64, max_ms: i64) -> (r: Result<
    TickAction,
    DataError,
>)
    ensures
        r == ingest_spec(fields.deep_view(), min_ms as int, max_ms as int),
{
    proof {
        assert(forall|i: int|
            0 <= i < fields@.len() ==> fields.deep_view()[i] =~= #[trigger] fields@[i]@);
    }
    if fields.len() < 2 {
        return Err(DataError::ShortRecord);
    }
    if is_err_marker(&fields[1]) {
        return Ok(TickAction::ProviderError);
    }
    if is_endmsg_marker(&fields[1]) {
        return Ok(TickAction::EndOfData);
    }
    let dt = match parse_bytes(fields[1].as_slice()) {
        Ok(dt) => dt,
        Err(e) => {
            return Err(e);
        },
    };
    let ms = match ny_epoch_millis(&dt) {
        Some(ms) => ms,
        None => {
            return Err(DataError::BadTime);
        },
    };
    Ok(
        TickAction::Trade {
            keep: ms > max_ms,
            dt,
            ms,
            new_min_ms: if ms < min_ms {
                ms
            } else {
                min_ms
            },
            new_max_ms: if ms > max_ms {
                ms
            } else {
                max_ms
            },
        },
    )
}

/// Whether fetching ticks for a symbol without a watermark must be refused:
/// inside New York market hours on a weekday, unless overridden.
/// `weekday` counts days from Monday as zero.
pub fn market_hours_blocked(no_mkt_hours: bool, weekday: u32, hour: u32) -> (r: bool)
    ensures
        r == (!no_mkt_hours && weekday != 5 && weekday != 6 && hour > 9 && hour < 16),
{
    !no_mkt_hours && weekday != 5 && weekday != 6 && hour > 9 && hour < 16
}

/// The protocol acknowledgement a healthy feed answers with.
pub open spec fn health_line() -> Seq<u8> {
    seq![
        83u8, 44u8, 67u8, 85u8, 82u8, 82u8, 69u8, 78u8, 84u8, 32u8, 80u8, 82u8, 79u8, 84u8, 79u8,
        67u8, 79u8, 76u8, 44u8, 53u8, 46u8, 49u8,
    ]
}

/// Whether the feed's first response line is the expected protocol
/// acknowledgement.
pub fn health_ok(line: &[u8]) -> (r: bool)
    ensures
        r == (line@ == health_line()),
{
    if line.len() != 22 {
        proof {
            if line@ == health_line() {
                assert(line@.len() == 22);
            }
        }
        return false;
    }
    let mut expected: Vec<u8> = Vec::new();
    expected.push(83);
    expected.push(44);
    expected.push(67);
    expected.push(85);
    expected.push(82);
    expected.push(82);
    expected.push(69);
    expected.push(78);
    expected.push(84);
    expected.push(32);
    expected.push(80);
    expected.push(82);
    expected.push(79);
    expected.push(84);
    expected.push(79);
    expected.push(67);
    expected.push(79);
    expected.push(76);
    expected.push(44);
    expected.push(53);
    expected.push(46);
    expected.push(49);
    proof {
        assert(expected@ =~= health_line());
    }
    let mut i: usize = 0;
    while i < 22
        invariant
            0 <= i <= 22,
            line@.len() == 22,
            expected@ == health_line(),
            expected@.len() == 22,
            forall|k: int| 0 <= k < i ==> line@[k] == health_line()[k],
        decreases 22 - i,
    {
        if line[i] != expected[i] {
            proof {
                if line@ == health_line() {
                    assert(line@[i as int] == health_line()[i as int]);
                }
            }
            return false;
        }
        i = i + 1;
    }
    proof {
        assert(line@ =~= health_line());
    }
    true
}

/// The process exit status the health probe maps its outcome to.
pub fn health_exit_code(ok: bool) -> (r: i32)
    ensures
        ok ==> r == 0,
        !ok ==> r == 2,
{
    if ok {
        0
    } else {
        2
    }
}

/// A symbol-lookup response line as displayed: every delimiter byte turned
/// into a tab.
pub open spec fn tabbed(s: Seq<u8>) -> Seq<u8> {
    s.map_values(
        |b: u8|
            if b == 44 {
                9u8
            } else {
                b
            },
    )
}

/// Reformats one lookup response line for display.
pub fn lookup_display_line(line: &[u8]) -> (r: Vec<u8>)
    ensures
        r@ == tabbed(line@),
{
    let mut out: Vec<u8> = Vec::new();
    let mut i: usize = 0;
    proof {
        assert(out@ =~= tabbed(line@.subrange(0, 0)));
    }
    while i < line.len()
        invariant
            0 <= i <= line@.len(),
            out@ == tabbed(line@.subrange(0, i as int)),
        decreases line@.len() - i,
    {
        let b = line[i];
        let t: u8 = if b == 44 {
            9
        } else {
            b
        };
        out.push(t);
        proof {
            assert(tabbed(line@.subrange(0, i as int)).push(t) =~= tabbed(
                line@.subrange(0, i + 1),
            ));
        }
        i = i + 1;
    }
    proof {
        assert(line@.subrange(0, line@.len() as int) =~= line@);
    }
    out
}

/// Whether the end-of-stream marker occurs anywhere in the line.
pub open spec fn contains_endmsg(s: Seq<u8>) -> bool {
    exists|k: int| 0 <= k <= s.len() - 8 && #[trigger] s.subrange(k, k + 8) =~= endmsg_marker()
}

/// Scans a lookup response line for the end-of-stream marker.
pub fn lookup_should_stop(line: &[u8]) -> (r: bool)
    ensures
        r == contains_endmsg(line@),
{
    if line.len() < 8 {
        proof {
            assert(!contains_endmsg(line@));
        }
        return false;
    }
    let n = line.len() - 8;
    let mut k: usize = 0;
    while k <= n
        invariant
            0 <= k <= n + 1,
            n + 8 == line@.len(),
            forall|j: int| 0 <= j < k ==> !(#[trigger] line@.subrange(j, j + 8) =~= endmsg_marker()),
        decreases n + 1 - k,
    {
        let hit = line[k] == 33 && line[k + 1] == 69 && line[k + 2] == 78 && line[k + 3] == 68
            && line[k + 4] == 77 && line[k + 5] == 83 && line[k + 6] == 71 && line[k + 7] == 33;
        if hit {
            proof {
                assert(line@.subrange(k as int, k + 8) =~= endmsg_marker());
            }
            return true;
        }
        proof {
            if line@.subrange(k as int, k + 8) =~= endmsg_marker() {
                assert(line@[k as int] == 33 && line@[k + 1] == 69 && line@[k + 2] == 78
                    && line@[k + 3] == 68 && line@[k + 4] == 77 && line@[k + 5] == 83 && line@[k
                    + 6] == 71 && line@[k + 7] == 33) by {
                    assert(line@.subrange(k as int, k + 8)[0] == line@[k as int]);
                    assert(line@.subrange(k as int, k + 8)[1] == line@[k + 1]);
                    assert(line@.subrange(k as int, k + 8)[2] == line@[k + 2]);
                    assert(line@.subrange(k as int, k + 8)[3] == line@[k + 3]);
                    assert(line@.subrange(k as int, k + 8)[4] == line@[k + 4]);
                    assert(line@.subrange(k as int, k + 8)[5] == line@[k + 5]);
                    assert(line@.subrange(k as int, k + 8)[6] == line@[k + 6]);
                    assert(line@.subrange(k as int, k + 8)[7] == line@[k + 7]);
                }
            }
        }
        k = k + 1;
    }
    proof {
        assert(!contains_endmsg(line@));
    }
    false
}

/// Input files are processed in ascending creation order.
pub open spec fn sorted_by_key(s: Seq<(u64, usize)>) -> bool {
    forall|i: int, j: int| 0 <= i < j < s.len() ==> (#[trigger] s[i]).0 <= (#[trigger] s[j]).0
}

/// Orders a run's input files by creation time. Each pair is a file's
/// creation instant and its position in the directory listing; the result
/// holds exactly the given pairs, ascending by instant. Which of two files
/// sharing an instant comes first is left open.
pub fn sort_by_created(keys: Vec<(u64, usize)>) -> (r: Vec<(u64, usize)>)
    ensures
        sorted_by_key(r@),
        r@.to_multiset() == keys@.to_multiset(),
{
    broadcast use vstd::seq_lib::group_to_multiset_ensures;
    broadcast use vstd::multiset::group_multiset_axioms;

    let mut rest = keys;
    let mut out: Vec<(u64, usize)> = Vec::new();
    let ghost all = rest@;
    proof {
        assert(out@.to_multiset() =~= Multiset::empty());
        assert(out@.to_multiset().add(rest@.to_multiset()) =~= all.to_multiset());
    }
    while rest.len() > 0
        invariant
            out@.to_multiset().add(rest@.to_multiset()) == all.to_multiset(),
            sorted_by_key(out@),
            forall|i: int, j: int|
                0 <= i < out@.len() && 0 <= j < rest@.len() ==> (#[trigger] out@[i]).0 <= (
                #[trigger] rest@[j]).0,
        decreases rest@.len(),
    {
        let mut m: usize = 0;
        let mut k: usize = 1;
        while k < rest.len()
            invariant
                0 < rest@.len(),
                0 <= m < k,
                k <= rest@.len(),
                forall|j: int| 0 <= j < k ==> rest@[m as int].0 <= (#[trigger] rest@[j]).0,
            decreases rest@.len() - k,
        {
            if rest[k].0 < rest[m].0 {
                m = k;
            }
            k = k + 1;
        }
        let ghost rest_pre = rest@;
        let ghost out_pre = out@;
        let x = rest.remove(m);
        out.push(x);
        proof {
            assert(x == rest_pre[m as int]);
            assert(rest_pre.contains(x));
            assert(out@ == out_pre.push(x));
            assert(rest@ == rest_pre.remove(m as int));
            vstd::seq_lib::to_multiset_build(out_pre, x);
            vstd::seq_lib::to_multiset_remove(rest_pre, m as int);
            vstd::seq_lib::to_multiset_contains(rest_pre, x);
            assert(out@.to_multiset() =~= out_pre.to_multiset().insert(x));
            assert(rest@.to_multiset() =~= rest_pre.to_multiset().remove(x));
            assert(out@.to_multiset().add(rest@.to_multiset()) =~= all.to_multiset());
            assert forall|j: int| 0 <= j < rest@.len() implies x.0 <= (#[trigger] rest@[j]).0 by {
                if j < m {
                    assert(rest@[j] == rest_pre[j]);
                } else {
                    assert(rest@[j] == rest_pre[j + 1]);
                }
            }
            assert forall|i: int, j: int|
                0 <= i < j < out@.len() implies (#[trigger] out@[i]).0 <= (
            #[trigger] out@[j]).0 by {
                if j < out_pre.len() {
                    assert(out@[i] == out_pre[i] && out@[j] == out_pre[j]);
                } else {
                    assert(out@[j] == x && out@[i] == out_pre[i]);
                }
            }
        }
    }
    proof {
        assert(rest@.to_multiset() =~= Multiset::empty());
        assert(out@.to_multiset().add(rest@.to_multiset()) =~= out@.to_multiset());
    }
    out
}

/// Whether a directory entry is a tick file the run should read: its name
/// ends in `.csv`.
pub fn is_tick_file(name: &[u8]) -> (r: bool)
    ensures
        r == (name@.len() >= 4 && name@.subrange(name@.len() - 4, name@.len() as int) =~= seq![
            46u8, 99u8, 115u8, 118u8,
        ]),
{
    if name.len() < 4 {
        return false;
    }
    let n = name.len();
    let r = name[n - 4] == 46 && name[n - 3] == 99 && name[n - 2] == 115 && name[n - 1] == 118;
    proof {
        let tail = name@.subrange(name@.len() - 4, name@.len() as int);
        assert(tail[0] == name@[name@.len() - 4] && tail[1] == name@[name@.len() - 3] && tail[2]
            == name@[name@.len() - 2] && tail[3] == name@[name@.len() - 1]);
        if r {
            assert(tail =~= seq![46u8, 99u8, 115u8, 118u8]);
        } else {
            if tail =~= seq![46u8, 99u8, 115u8, 118u8] {
                assert(tail[0] == 46 && tail[1] == 99 && tail[2] == 115 && tail[3] == 118);
            }
        }
    }
    r
}

} // verus!
