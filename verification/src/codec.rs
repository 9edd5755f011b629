use vstd::prelude::*;
use vstd::arithmetic::div_mod::*;

use crate::text::{
    field_val, is_digit, lemma_pad2, lemma_pad3, lemma_split_on_step, pad2, pad3, parse_field,
    push_pad2, push_pad3, split_on, split_ranges, str_chars, string_from_chars,
};

verus! {

// ---------------------------------------------------------------------------
// The canonical timestamp form `HH:MM:SS.mmm`
// ---------------------------------------------------------------------------

/// Total milliseconds in a `(hours, minutes, seconds, milliseconds)` timestamp.
pub open spec fn timestamp_ms(h: int, m: int, s: int, ms: int) -> int {
    h * 3600_000 + m * 60_000 + s * 1000 + ms
}

/// The canonical rendering `HH:MM:SS.mmm`, each field zero-padded.
pub open spec fn ts_string(h: nat, m: nat, s: nat, ms: nat) -> Seq<char> {
    pad2(h) + seq![':'] + pad2(m) + seq![':'] + pad2(s) + seq!['.'] + pad3(ms)
}

/// Shape a dotted timestamp must have so the lenient parser can read it:
/// at least three `:`-fields, and a `.` inside the third.
pub open spec fn dotted_shape(s: Seq<char>) -> bool {
    split_on(s, ':').len() >= 3 && split_on(split_on(s, ':')[2], '.').len() >= 2
}

/// The four fields of a dotted timestamp, read leniently: unparsable fields
/// count as zero.
pub open spec fn parse_canonical_spec(s: Seq<char>) -> (u32, u32, u32, u32) {
    let p = split_on(s, ':');
    let q = split_on(p[2], '.');
    (field_val(p[0]), field_val(p[1]), field_val(q[0]), field_val(q[1]))
}

/// Total milliseconds a dotted timestamp denotes.
pub open spec fn dotted_ms(s: Seq<char>) -> int {
    let (h, m, sec, ms) = parse_canonical_spec(s);
    timestamp_ms(h as int, m as int, sec as int, ms as int)
}

/// The four fields of a timestamp written with `:` before every field,
/// the authoring tool's frame-index convention.
pub open spec fn parse_ts_spec(s: Seq<char>) -> (u32, u32, u32, u32) {
    let p = split_on(s, ':');
    (field_val(p[0]), field_val(p[1]), field_val(p[2]), field_val(p[3]))
}

/// The canonical decomposition of a millisecond count into fields.
pub open spec fn ms_fields(t: int) -> (u32, u32, u32, u32) {
    (
        (t / 3600_000) as u32,
        ((t % 3600_000) / 60_000) as u32,
        ((t % 60_000) / 1000) as u32,
        (t % 1000) as u32,
    )
}

// ---------------------------------------------------------------------------
// Executable codec
// ---------------------------------------------------------------------------

/// Renders a timestamp in the canonical form.
pub fn format_timestamp(h: u64, m: u64, s: u64, ms: u64) -> (r: String)
    ensures
        r@ == ts_string(h as nat, m as nat, s as nat, ms as nat),
{
    let mut out: Vec<char> = Vec::new();
    push_pad2(&mut out, h);
    out.push(':');
    push_pad2(&mut out, m);
    out.push(':');
    push_pad2(&mut out, s);
    out.push('.');
    push_pad3(&mut out, ms);
    proof {
        assert(out@ =~= ts_string(h as nat, m as nat, s as nat, ms as nat));
    }
    string_from_chars(out)
}

/// Formats four timestamp fields as zero-padded `HH:MM:SS.mmm`.
pub fn to_canonical_string(h: u32, m: u32, s: u32, ms: u32) -> (r: String)
    ensures
        r@ == ts_string(h as nat, m as nat, s as nat, ms as nat),
{
    format_timestamp(h as u64, m as u64, s as u64, ms as u64)
}

/// Number of `:`-separated fields of `s`; what the field-indexing parsers
/// require can be checked with this before calling them.
pub fn colon_field_count(s: &str) -> (r: usize)
    ensures
        r == split_on(s@, ':').len(),
{
    let v = str_chars(s);
    let parts = split_ranges(&v, 0, v.len(), ':');
    proof {
        assert(v@.subrange(0, v@.len() as int) =~= s@);
    }
    parts.len()
}

/// Whether `s` has the dotted shape `H:M:S.mmm` that the canonical parser
/// requires.
pub fn is_dotted_timestamp(s: &str) -> (r: bool)
    ensures
        r == dotted_shape(s@),
{
    let v = str_chars(s);
    let parts = split_ranges(&v, 0, v.len(), ':');
    proof {
        assert(v@.subrange(0, v@.len() as int) =~= s@);
    }
    if parts.len() < 3 {
        return false;
    }
    let (a, b) = parts[2];
    let q = split_ranges(&v, a, b, '.');
    q.len() >= 2
}

/// Parses a frame-index timestamp `HH:MM:SS:FF`: four `:`-separated fields,
/// each read as a number, unparsable fields counting as zero.
pub fn parse_timestamp(timestamp: &str) -> (r: (u32, u32, u32, u32))
    requires
        split_on(timestamp@, ':').len() >= 4,
    ensures
        r == parse_ts_spec(timestamp@),
{
    let v = str_chars(timestamp);
    proof {
        assert(v@.subrange(0, v@.len() as int) =~= timestamp@);
    }
    let parts = split_ranges(&v, 0, v.len(), ':');
    let (a0, b0) = parts[0];
    let (a1, b1) = parts[1];
    let (a2, b2) = parts[2];
    let (a3, b3) = parts[3];
    (
        parse_field(&v, a0, b0),
        parse_field(&v, a1, b1),
        parse_field(&v, a2, b2),
        parse_field(&v, a3, b3),
    )
}

/// Parses a dotted timestamp `HH:MM:SS.mmm` into its four fields.
pub fn parse_canonical(s: &str) -> (r: (u32, u32, u32, u32))
    requires
        dotted_shape(s@),
    ensures
        r == parse_canonical_spec(s@),
{
    let v = str_chars(s);
    proof {
        assert(v@.subrange(0, v@.len() as int) =~= s@);
    }
    let parts = split_ranges(&v, 0, v.len(), ':');
    let (a0, b0) = parts[0];
    let (a1, b1) = parts[1];
    let (a2, b2) = parts[2];
    let q = split_ranges(&v, a2, b2, '.');
    let (c0, d0) = q[0];
    let (c1, d1) = q[1];
    (
        parse_field(&v, a0, b0),
        parse_field(&v, a1, b1),
        parse_field(&v, c0, d0),
        parse_field(&v, c1, d1),
    )
}

/// Total milliseconds a dotted timestamp denotes.
pub fn timestamp_to_milliseconds(s: &str) -> (r: u64)
    requires
        dotted_shape(s@),
    ensures
        r == dotted_ms(s@),
{
    let (h, m, sec, ms) = parse_canonical(s);
    h as u64 * 3600_000 + m as u64 * 60_000 + sec as u64 * 1000 + ms as u64
}

/// Converts timestamp fields to their total number of milliseconds.
pub fn to_milliseconds(h: u32, m: u32, s: u32, ms: u32) -> (r: u32)
    requires
        timestamp_ms(h as int, m as int, s as int, ms as int) <= u32::MAX,
    ensures
        r == timestamp_ms(h as int, m as int, s as int, ms as int),
{
    h * 3600_000 + m * 60_000 + s * 1000 + ms
}

/// Decomposes a millisecond count into canonical timestamp fields.
pub fn from_milliseconds(ms_total: u32) -> (r: (u32, u32, u32, u32))
    ensures
        r == ms_fields(ms_total as int),
{
    (
        ms_total / 3600_000,
        (ms_total % 3600_000) / 60_000,
        (ms_total % 60_000) / 1000,
        ms_total % 1000,
    )
}

/// Renders a whole-second count as a canonical timestamp.
pub fn seconds_to_time(seconds: u64) -> (r: String)
    ensures
        r@ == ts_string(
            (seconds as int / 3600) as nat,
            ((seconds as int % 3600) / 60) as nat,
            (seconds as int % 60) as nat,
            0,
        ),
{
    format_timestamp(seconds / 3600, (seconds % 3600) / 60, seconds % 60, 0)
}

// ---------------------------------------------------------------------------
// The cut-point resolver
// ---------------------------------------------------------------------------

/// The rendered end point for a cut `total` milliseconds in: canonical,
/// except that a non-integral frame rate (given in thousandths of a frame
/// per second) pulls the seconds/milliseconds fields back by 50 ms to
/// compensate for the transcoder's frame rounding. Hours and minutes are
/// never adjusted.
pub open spec fn render_cut(total: int, fps_milli: int) -> Seq<char> {
    let h = total / 3600_000;
    let m = (total % 3600_000) / 60_000;
    if fps_milli % 1000 != 0 {
        let sms = total % 60_000 - 50;
        ts_string(h as nat, m as nat, (sms / 1000) as nat, (sms % 1000) as nat)
    } else {
        ts_string(h as nat, m as nat, ((total % 60_000) / 1000) as nat, (total % 1000) as nat)
    }
}

/// Adds two dotted timestamps (a start offset and a section duration) and
/// renders the sum as the transcoder's end cut point, with the 50 ms
/// pullback exactly when the frame rate is not integral.
pub fn add_timestamps(timestamp1: &str, timestamp2: &str, fps_milli: u64) -> (r: String)
    requires
        dotted_shape(timestamp1@),
        dotted_shape(timestamp2@),
        dotted_ms(timestamp1@) + dotted_ms(timestamp2@) <= u32::MAX,
        fps_milli % 1000 != 0 ==> (dotted_ms(timestamp1@) + dotted_ms(timestamp2@)) % 60_000
            >= 50,
    ensures
        r@ == render_cut(dotted_ms(timestamp1@) + dotted_ms(timestamp2@), fps_milli as int),
{
    let a = timestamp_to_milliseconds(timestamp1);
    let b = timestamp_to_milliseconds(timestamp2);
    let total = a + b;
    let h = total / 3600_000;
    let m = (total % 3600_000) / 60_000;
    if fps_milli % 1000 != 0 {
        let sms = total % 60_000 - 50;
        format_timestamp(h, m, sms / 1000, sms % 1000)
    } else {
        format_timestamp(h, m, (total % 60_000) / 1000, total % 1000)
    }
}

// ---------------------------------------------------------------------------
// Laws
// ---------------------------------------------------------------------------

/// Splitting the canonical rendering recovers the four fields.
#[verifier::rlimit(100)]
#[verifier::spinoff_prover]
proof fn lemma_split_ts_string(h: nat, m: nat, s: nat, ms: nat)
    requires
        h <= u32::MAX,
        m < 60,
        s < 60,
        ms < 1000,
    ensures
        parse_canonical_spec(ts_string(h, m, s, ms)) == (
            h as u32,
            m as u32,
            s as u32,
            ms as u32,
        ),
{
    let aa = pad2(h);
    let bb = pad2(m);
    let cc = pad2(s);
    let dd = pad3(ms);
    let full = ts_string(h, m, s, ms);
    lemma_pad2(h);
    lemma_pad2(m);
    lemma_pad2(s);
    lemma_pad3(ms);

    let rest1 = bb + seq![':'] + cc + seq!['.'] + dd;
    let rest2 = cc + seq!['.'] + dd;

    assert(forall|i: int| 0 <= i < full.len() ==> full[i] == (if i < aa.len() {
        aa[i]
    } else if i == aa.len() {
        ':'
    } else {
        rest1[i - aa.len() - 1]
    }));
    assert forall|i: int| 0 <= i < aa.len() implies full[i] != ':' by {
        assert(is_digit(aa[i]));
    }
    lemma_split_on_step(full, ':', aa.len() as int);
    assert(full.take(aa.len() as int) =~= aa);
    assert(full.skip(aa.len() as int + 1) =~= rest1);

    assert(forall|i: int| 0 <= i < rest1.len() ==> rest1[i] == (if i < bb.len() {
        bb[i]
    } else if i == bb.len() {
        ':'
    } else {
        rest2[i - bb.len() - 1]
    }));
    assert forall|i: int| 0 <= i < bb.len() implies rest1[i] != ':' by {
        assert(is_digit(bb[i]));
    }
    lemma_split_on_step(rest1, ':', bb.len() as int);
    assert(rest1.take(bb.len() as int) =~= bb);
    assert(rest1.skip(bb.len() as int + 1) =~= rest2);

    assert(forall|i: int| 0 <= i < rest2.len() ==> rest2[i] == (if i < cc.len() {
        cc[i]
    } else if i == cc.len() {
        '.'
    } else {
        dd[i - cc.len() - 1]
    }));
    assert forall|i: int| 0 <= i < rest2.len() implies rest2[i] != ':' by {
        if i < cc.len() {
            assert(is_digit(cc[i]));
        } else if i > cc.len() {
            assert(is_digit(dd[i - cc.len() - 1]));
        }
    }
    lemma_split_on_step(rest2, ':', rest2.len() as int);

    let p = split_on(full, ':');
    assert(p == seq![aa, bb] + seq![rest2]);
    assert(p[2] == rest2);

    assert forall|i: int| 0 <= i < cc.len() implies rest2[i] != '.' by {
        assert(is_digit(cc[i]));
    }
    lemma_split_on_step(rest2, '.', cc.len() as int);
    assert(rest2.take(cc.len() as int) =~= cc);
    assert(rest2.skip(cc.len() as int + 1) =~= dd);
    assert forall|i: int| 0 <= i < dd.len() implies dd[i] != '.' by {
        assert(is_digit(dd[i]));
    }
    lemma_split_on_step(dd, '.', dd.len() as int);

    let q = split_on(p[2], '.');
    assert(q == seq![cc, dd]);

    assert(field_val(aa) == h);
    assert(field_val(bb) == m);
    assert(field_val(cc) == s);
    assert(field_val(dd) == ms);
}

/// Round trip: formatting a valid timestamp and parsing the result gives
/// back exactly the same four fields.
pub proof fn lemma_format_parse_round_trip(h: u32, m: u32, s: u32, ms: u32)
    requires
        m < 60,
        s < 60,
        ms < 1000,
    ensures
        parse_canonical_spec(ts_string(h as nat, m as nat, s as nat, ms as nat)) == (h, m, s, ms),
{
    lemma_split_ts_string(h as nat, m as nat, s as nat, ms as nat);
}

/// Millisecond conversion is a bijection on the canonical domain: decomposing
/// the total millisecond count of a valid timestamp gives back its fields.
pub proof fn lemma_milliseconds_round_trip(h: u32, m: u32, s: u32, ms: u32)
    requires
        m < 60,
        s < 60,
        ms < 1000,
        timestamp_ms(h as int, m as int, s as int, ms as int) <= u32::MAX,
    ensures
        ms_fields(timestamp_ms(h as int, m as int, s as int, ms as int)) == (h, m, s, ms),
{
    let t = timestamp_ms(h as int, m as int, s as int, ms as int);
    let r1 = m * 60_000 + s * 1000 + ms;
    lemma_fundamental_div_mod_converse(t, 3600_000, h as int, r1 as int);
    lemma_fundamental_div_mod_converse(r1 as int, 60_000, m as int, (s * 1000 + ms) as int);
    lemma_fundamental_div_mod_converse(
        t,
        60_000,
        h as int * 60 + m as int,
        (s * 1000 + ms) as int,
    );
    lemma_fundamental_div_mod_converse((s * 1000 + ms) as int, 1000, s as int, ms as int);
    lemma_fundamental_div_mod_converse(t, 1000, h as int * 3600 + m as int * 60 + s as int, ms as int);
}

/// Frame-rate correction: for an integral frame rate the rendered cut point
/// denotes exactly the millisecond total it was built from; for a
/// non-integral rate it denotes exactly 50 ms less, borrowed from the
/// seconds/milliseconds fields alone.
pub proof fn lemma_cut_pullback(total: int, fps_milli: int)
    requires
        0 <= total <= u32::MAX,
        fps_milli % 1000 != 0 ==> total % 60_000 >= 50,
    ensures
        fps_milli % 1000 == 0 ==> dotted_ms(render_cut(total, fps_milli)) == total,
        fps_milli % 1000 != 0 ==> dotted_ms(render_cut(total, fps_milli)) == total - 50,
{
    let h = total / 3600_000;
    let m = (total % 3600_000) / 60_000;
    lemma_fundamental_div_mod(total, 3600_000);
    lemma_fundamental_div_mod(total % 3600_000, 60_000);
    assert((total % 3600_000) % 60_000 == total % 60_000) by {
        lemma_mod_mod(total, 60_000, 60);
        assert(60_000 * 60 == 3600_000);
    }
    lemma_fundamental_div_mod(total % 60_000, 1000);
    assert(0 <= total % 3600_000 < 3600_000);
    assert(0 <= total % 60_000 < 60_000);
    assert(0 <= m < 60);
    if fps_milli % 1000 != 0 {
        let sms = total % 60_000 - 50;
        lemma_fundamental_div_mod(sms, 1000);
        assert(0 <= sms / 1000 < 60);
        assert(0 <= sms % 1000 < 1000);
        lemma_split_ts_string(h as nat, m as nat, (sms / 1000) as nat, (sms % 1000) as nat);
        assert(h * 3600_000 + m * 60_000 + total % 60_000 == total);
        assert(dotted_ms(render_cut(total, fps_milli)) == h * 3600_000 + m * 60_000 + (sms
            / 1000) * 1000 + sms % 1000);
    } else {
        let sec = (total % 60_000) / 1000;
        let msec = total % 1000;
        assert((total % 60_000) % 1000 == total % 1000) by {
            lemma_mod_mod(total, 1000, 60);
            assert(1000 * 60 == 60_000);
        }
        assert(0 <= sec < 60);
        assert(0 <= msec < 1000);
        lemma_split_ts_string(h as nat, m as nat, sec as nat, msec as nat);
        assert(h * 3600_000 + m * 60_000 + total % 60_000 == total);
        assert(dotted_ms(render_cut(total, fps_milli)) == h * 3600_000 + m * 60_000 + sec * 1000
            + msec);
    }
}

} // verus!
