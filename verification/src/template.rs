use vstd::prelude::*;

use crate::codec::{format_timestamp, parse_timestamp, parse_ts_spec, ts_string};
use crate::text::split_on;

verus! {

// ---------------------------------------------------------------------------
// Template lines
// ---------------------------------------------------------------------------

/// The non-empty lines, in order: what loading a template keeps.
pub open spec fn nonempty_lines(ls: Seq<Seq<char>>) -> Seq<Seq<char>>
    decreases ls.len(),
{
    if ls.len() == 0 {
        Seq::empty()
    } else if ls.last().len() == 0 {
        nonempty_lines(ls.drop_last())
    } else {
        nonempty_lines(ls.drop_last()).push(ls.last())
    }
}

/// Keeps the non-empty lines of a loaded template, in file order.
pub fn keep_nonempty(lines: Vec<String>) -> (r: Vec<String>)
    ensures
        r.deep_view() == nonempty_lines(lines.deep_view()),
{
    let mut r: Vec<String> = Vec::new();
    let mut i: usize = 0;
    while i < lines.len()
        invariant
            i <= lines@.len(),
            r.deep_view() == nonempty_lines(lines.deep_view().take(i as int)),
        decreases lines@.len() - i,
    {
        proof {
            assert(lines.deep_view().take(i + 1).drop_last() =~= lines.deep_view().take(i as int));
            assert(lines.deep_view().take(i + 1).last() == lines@[i as int]@);
        }
        if !lines[i].as_str().is_empty() {
            r.push(lines[i].clone());
            proof {
                assert(r.deep_view() =~= nonempty_lines(lines.deep_view().take(i + 1)));
            }
        } else {
            proof {
                assert(r.deep_view() =~= nonempty_lines(lines.deep_view().take(i + 1)));
            }
        }
        i = i + 1;
    }
    proof {
        assert(lines.deep_view().take(lines@.len() as int) =~= lines.deep_view());
    }
    r
}

// ---------------------------------------------------------------------------
// Sub-second rescale: frame index to true milliseconds
// ---------------------------------------------------------------------------

/// The authoring tool writes the fourth field as a frame index under a
/// 30-frames-per-second clock; true milliseconds are that value times
/// 100/3, truncated, saturating at `u32::MAX`.
pub open spec fn rescale_frames(ms: int) -> int {
    if ms * 100 / 3 > u32::MAX {
        u32::MAX as int
    } else {
        ms * 100 / 3
    }
}

/// A template line after the sub-second rescale, in canonical dotted form.
pub open spec fn adjusted_line(l: Seq<char>) -> Seq<char> {
    let (h, m, s, ms) = parse_ts_spec(l);
    ts_string(h as nat, m as nat, s as nat, rescale_frames(ms as int) as nat)
}

/// Total milliseconds of a frame-index line, read without rescaling.
pub open spec fn raw_total(l: Seq<char>) -> int {
    let (h, m, s, ms) = parse_ts_spec(l);
    (h * 3600 + m * 60 + s) * 1000 + ms
}

/// Total milliseconds of a frame-index line after the sub-second rescale.
pub open spec fn rescaled_total(l: Seq<char>) -> int {
    let (h, m, s, ms) = parse_ts_spec(l);
    (h * 3600 + m * 60 + s) * 1000 + ms * 100 / 3
}

/// A millisecond span rendered in the canonical dotted form.
pub open spec fn dur_string(d: int) -> Seq<char> {
    ts_string(
        (d / 3600_000) as nat,
        ((d % 3600_000) / 60_000) as nat,
        ((d % 60_000) / 1000) as nat,
        (d % 1000) as nat,
    )
}

/// Rewrites each frame-index template line `HH:MM:SS:FF` as a canonical
/// dotted timestamp, the frame field rescaled to true milliseconds.
pub fn adjust_millisec(seconds: Vec<String>) -> (r: Vec<String>)
    requires
        forall|i: int| 0 <= i < seconds@.len()
            ==> split_on(#[trigger] seconds.deep_view()[i], ':').len() >= 4,
    ensures
        r.deep_view().len() == seconds@.len(),
        forall|i: int| 0 <= i < seconds@.len()
            ==> r.deep_view()[i] == adjusted_line(seconds.deep_view()[i]),
{
    let mut r: Vec<String> = Vec::new();
    let mut i: usize = 0;
    while i < seconds.len()
        invariant
            i <= seconds@.len(),
            forall|k: int| 0 <= k < seconds@.len()
                ==> split_on(#[trigger] seconds.deep_view()[k], ':').len() >= 4,
            r.deep_view().len() == i,
            forall|k: int| 0 <= k < i
                ==> r.deep_view()[k] == adjusted_line(seconds.deep_view()[k]),
        decreases seconds@.len() - i,
    {
        proof {
            assert(seconds.deep_view()[i as int] == seconds@[i as int]@);
        }
        let (h, m, s, ms) = parse_timestamp(seconds[i].as_str());
        let mut new_ms: u64 = ms as u64 * 100 / 3;
        if new_ms > u32::MAX as u64 {
            new_ms = u32::MAX as u64;
        }
        let ghost prev = r.deep_view();
        let line = format_timestamp(h as u64, m as u64, s as u64, new_ms);
        proof {
            assert(line@ == adjusted_line(seconds.deep_view()[i as int]));
        }
        r.push(line);
        proof {
            assert(r.deep_view() =~= prev.push(adjusted_line(seconds.deep_view()[i as int])));
        }
        i = i + 1;
    }
    r
}

/// Derives one duration per adjacent pair of frame-index template lines,
/// without the sub-second rescale, each rendered in dotted form.
pub fn extract_seconds(timestamps: Vec<String>) -> (r: Vec<String>)
    requires
        forall|i: int| 0 <= i < timestamps@.len()
            ==> split_on(#[trigger] timestamps.deep_view()[i], ':').len() >= 4,
        forall|i: int| 0 <= i < timestamps@.len()
            ==> raw_total(#[trigger] timestamps.deep_view()[i]) <= u32::MAX,
        forall|i: int| 0 <= i < timestamps@.len() - 1
            ==> raw_total(#[trigger] timestamps.deep_view()[i])
                <= raw_total(timestamps.deep_view()[i + 1]),
    ensures
        r.deep_view().len() == if timestamps@.len() == 0 { 0int } else { timestamps@.len() - 1 },
        forall|i: int| 0 <= i < r.deep_view().len()
            ==> r.deep_view()[i] == dur_string(
                raw_total(timestamps.deep_view()[i + 1]) - raw_total(timestamps.deep_view()[i]),
            ),
{
    let mut r: Vec<String> = Vec::new();
    if timestamps.len() == 0 {
        return r;
    }
    let mut i: usize = 1;
    while i < timestamps.len()
        invariant
            1 <= i <= timestamps@.len(),
            forall|k: int| 0 <= k < timestamps@.len()
                ==> split_on(#[trigger] timestamps.deep_view()[k], ':').len() >= 4,
            forall|k: int| 0 <= k < timestamps@.len()
                ==> raw_total(#[trigger] timestamps.deep_view()[k]) <= u32::MAX,
            forall|k: int| 0 <= k < timestamps@.len() - 1
                ==> raw_total(#[trigger] timestamps.deep_view()[k])
                    <= raw_total(timestamps.deep_view()[k + 1]),
            r.deep_view().len() == i - 1,
            forall|k: int| 0 <= k < i - 1
                ==> r.deep_view()[k] == dur_string(
                    raw_total(timestamps.deep_view()[k + 1])
                        - raw_total(timestamps.deep_view()[k]),
                ),
        decreases timestamps@.len() - i,
    {
        proof {
            assert(timestamps.deep_view()[i - 1] == timestamps@[i - 1]@);
            assert(timestamps.deep_view()[i as int] == timestamps@[i as int]@);
        }
        let (h1, m1, s1, ms1) = parse_timestamp(timestamps[i - 1].as_str());
        let (h2, m2, s2, ms2) = parse_timestamp(timestamps[i].as_str());
        let t1: u64 = (h1 as u64 * 3600 + m1 as u64 * 60 + s1 as u64) * 1000 + ms1 as u64;
        let t2: u64 = (h2 as u64 * 3600 + m2 as u64 * 60 + s2 as u64) * 1000 + ms2 as u64;
        let d: u64 = t2 - t1;
        let ghost prev = r.deep_view();
        let ghost dd = raw_total(timestamps.deep_view()[i as int]) - raw_total(timestamps.deep_view()[i - 1]);
        let line = format_timestamp(
            d / 3600_000,
            (d % 3600_000) / 60_000,
            (d % 60_000) / 1000,
            d % 1000,
        );
        proof {
            assert(d == dd);
            assert(line@ == dur_string(dd));
        }
        r.push(line);
        proof {
            assert(r.deep_view() =~= prev.push(dur_string(dd)));
        }
        i = i + 1;
    }
    r
}

/// Normalizes a template: rescales every line's frame field to true
/// milliseconds, then derives one duration per adjacent pair, in dotted
/// form — one fewer than the number of lines.
pub fn normalize_template(lines: Vec<String>) -> (r: Vec<String>)
    requires
        forall|i: int| 0 <= i < lines@.len()
            ==> split_on(#[trigger] lines.deep_view()[i], ':').len() >= 4,
        forall|i: int| 0 <= i < lines@.len() - 1
            ==> rescaled_total(#[trigger] lines.deep_view()[i])
                <= rescaled_total(lines.deep_view()[i + 1]),
    ensures
        r.deep_view().len() == if lines@.len() == 0 { 0int } else { lines@.len() - 1 },
        forall|i: int| 0 <= i < r.deep_view().len()
            ==> r.deep_view()[i] == dur_string(
                rescaled_total(lines.deep_view()[i + 1]) - rescaled_total(lines.deep_view()[i]),
            ),
{
    let mut r: Vec<String> = Vec::new();
    if lines.len() == 0 {
        return r;
    }
    let mut i: usize = 1;
    while i < lines.len()
        invariant
            1 <= i <= lines@.len(),
            forall|k: int| 0 <= k < lines@.len()
                ==> split_on(#[trigger] lines.deep_view()[k], ':').len() >= 4,
            forall|k: int| 0 <= k < lines@.len() - 1
                ==> rescaled_total(#[trigger] lines.deep_view()[k])
                    <= rescaled_total(lines.deep_view()[k + 1]),
            r.deep_view().len() == i - 1,
            forall|k: int| 0 <= k < i - 1
                ==> r.deep_view()[k] == dur_string(
                    rescaled_total(lines.deep_view()[k + 1])
                        - rescaled_total(lines.deep_view()[k]),
                ),
        decreases lines@.len() - i,
    {
        proof {
            assert(lines.deep_view()[i - 1] == lines@[i - 1]@);
            assert(lines.deep_view()[i as int] == lines@[i as int]@);
        }
        let (h1, m1, s1, ms1) = parse_timestamp(lines[i - 1].as_str());
        let (h2, m2, s2, ms2) = parse_timestamp(lines[i].as_str());
        let t1: u64 = (h1 as u64 * 3600 + m1 as u64 * 60 + s1 as u64) * 1000
            + ms1 as u64 * 100 / 3;
        let t2: u64 = (h2 as u64 * 3600 + m2 as u64 * 60 + s2 as u64) * 1000
            + ms2 as u64 * 100 / 3;
        let d: u64 = t2 - t1;
        let ghost prev = r.deep_view();
        let ghost dd = rescaled_total(lines.deep_view()[i as int]) - rescaled_total(lines.deep_view()[i - 1]);
        let line = format_timestamp(
            d / 3600_000,
            (d % 3600_000) / 60_000,
            (d % 60_000) / 1000,
            d % 1000,
        );
        proof {
            assert(d == dd);
            assert(line@ == dur_string(dd));
        }
        r.push(line);
        proof {
            assert(r.deep_view() =~= prev.push(dur_string(dd)));
        }
        i = i + 1;
    }
    r
}

} // verus!
