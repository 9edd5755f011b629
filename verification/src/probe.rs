use vstd::prelude::*;

use crate::text::{
    all_digits, digit_of, digit_val, digits_val, is_digit, lemma_digits_val_nonneg, split_on,
    split_ranges, str_chars,
};

verus! {

// ---------------------------------------------------------------------------
// Whitespace and tokens
// ---------------------------------------------------------------------------

pub open spec fn is_ws(c: char) -> bool {
    c == ' ' || c == '\t' || c == '\n' || c == '\r' || c == '\u{000B}' || c == '\u{000C}'
}

/// Whether `c` is whitespace, as the token scanner counts it.
pub fn ws_char(c: char) -> (r: bool)
    ensures
        r == is_ws(c),
{
    c == ' ' || c == '\t' || c == '\n' || c == '\r' || c == '\u{000B}' || c == '\u{000C}'
}

pub open spec fn strip_trailing_ws(s: Seq<char>) -> Seq<char>
    decreases s.len(),
{
    if s.len() > 0 && is_ws(s.last()) {
        strip_trailing_ws(s.drop_last())
    } else {
        s
    }
}

pub open spec fn strip_leading_ws(s: Seq<char>) -> Seq<char>
    decreases s.len(),
{
    if s.len() > 0 && is_ws(s.first()) {
        strip_leading_ws(s.drop_first())
    } else {
        s
    }
}

/// The maximal run of non-whitespace characters at the end of `s`.
pub open spec fn trailing_run(s: Seq<char>) -> Seq<char>
    decreases s.len(),
{
    if s.len() == 0 || is_ws(s.last()) {
        Seq::empty()
    } else {
        trailing_run(s.drop_last()).push(s.last())
    }
}

/// The last whitespace-separated token of `s`, if there is one.
pub open spec fn last_token(s: Seq<char>) -> Option<Seq<char>> {
    let t = strip_trailing_ws(s);
    if t.len() == 0 {
        None
    } else {
        Some(trailing_run(t))
    }
}

proof fn lemma_strip_trailing(s: Seq<char>, j: int)
    requires
        0 <= j <= s.len(),
        forall|i: int| j <= i < s.len() ==> is_ws(#[trigger] s[i]),
        j > 0 ==> !is_ws(s[j - 1]),
    ensures
        strip_trailing_ws(s) == s.take(j),
    decreases s.len(),
{
    if s.len() == j {
        assert(s.take(j) =~= s);
    } else {
        assert(is_ws(s.last()));
        assert(forall|i: int| j <= i < s.drop_last().len()
            ==> is_ws(#[trigger] s.drop_last()[i]));
        lemma_strip_trailing(s.drop_last(), j);
        assert(s.drop_last().take(j) =~= s.take(j));
    }
}

proof fn lemma_strip_leading(s: Seq<char>, j: int)
    requires
        0 <= j <= s.len(),
        forall|i: int| 0 <= i < j ==> is_ws(#[trigger] s[i]),
        j < s.len() ==> !is_ws(s[j]),
    ensures
        strip_leading_ws(s) == s.skip(j),
    decreases j,
{
    if j == 0 {
        assert(s.skip(0) =~= s);
    } else {
        assert(is_ws(s.first()));
        assert(forall|i: int| 0 <= i < j - 1 ==> is_ws(#[trigger] s.drop_first()[i]));
        lemma_strip_leading(s.drop_first(), j - 1);
        assert(s.drop_first().skip(j - 1) =~= s.skip(j));
    }
}

proof fn lemma_trailing_run(t: Seq<char>, m: int)
    requires
        0 <= m <= t.len(),
        forall|i: int| m <= i < t.len() ==> !is_ws(#[trigger] t[i]),
        m > 0 ==> is_ws(t[m - 1]),
    ensures
        trailing_run(t) == t.skip(m),
    decreases t.len(),
{
    if t.len() == m {
        if t.len() == 0 {
            assert(t.skip(0) =~= Seq::<char>::empty());
        } else {
            assert(is_ws(t.last()));
            assert(t.skip(m) =~= Seq::<char>::empty());
        }
    } else {
        assert(!is_ws(t.last()));
        assert(forall|i: int| m <= i < t.drop_last().len()
            ==> !is_ws(#[trigger] t.drop_last()[i]));
        lemma_trailing_run(t.drop_last(), m);
        assert(t.drop_last().skip(m).push(t.last()) =~= t.skip(m));
    }
}

// ---------------------------------------------------------------------------
// Decimal numbers, read to millesimal precision
// ---------------------------------------------------------------------------

/// The first three fractional digits, scaled to thousandths.
pub open spec fn frac_milli(f: Seq<char>) -> int {
    if f.len() == 0 {
        0
    } else if f.len() == 1 {
        digit_val(f[0]) * 100
    } else if f.len() == 2 {
        digit_val(f[0]) * 100 + digit_val(f[1]) * 10
    } else {
        digit_val(f[0]) * 100 + digit_val(f[1]) * 10 + digit_val(f[2])
    }
}

/// Whether the integer part of a decimal is a digit run whose value leaves
/// room for the thousandths scale in a `u64`.
pub open spec fn int_part_ok(s: Seq<char>) -> bool {
    s.len() > 0 && all_digits(s) && digits_val(s) <= (u64::MAX - 999) / 1000
}

/// A decimal number `I` or `I.F`, read as a count of thousandths: the
/// integer part scaled by 1000 plus the first three fractional digits.
/// Anything of another shape, or too large, reads as nothing.
pub open spec fn decimal_milli(s: Seq<char>) -> Option<u64> {
    let p = split_on(s, '.');
    if p.len() == 1 && int_part_ok(p[0]) {
        Some((digits_val(p[0]) * 1000) as u64)
    } else if p.len() == 2 && int_part_ok(p[0]) && all_digits(p[1]) {
        Some((digits_val(p[0]) * 1000 + frac_milli(p[1])) as u64)
    } else {
        None
    }
}

proof fn lemma_frac_milli_bounds(f: Seq<char>)
    requires
        all_digits(f),
    ensures
        0 <= frac_milli(f) <= 999,
{
}

/// Reads `v[from..to]` as a digit run if its value leaves room for the
/// thousandths scale.
#[verifier::loop_isolation(false)]
fn digits_value_checked(v: &Vec<char>, from: usize, to: usize) -> (r: Option<u64>)
    requires
        from <= to <= v@.len(),
    ensures
        r is Some <==> int_part_ok(v@.subrange(from as int, to as int)),
        r is Some ==> r->0 == digits_val(v@.subrange(from as int, to as int)),
{
    let ghost sub = v@.subrange(from as int, to as int);
    if from == to {
        return None;
    }
    let limit: u64 = (u64::MAX - 999) / 1000;
    let mut acc: u64 = 0;
    let mut i = from;
    while i < to
        invariant
            from <= i <= to,
            all_digits(sub.take(i - from)),
            acc == digits_val(sub.take(i - from)),
            acc <= limit,
        decreases to - i,
    {
        let c = v[i];
        proof {
            assert(sub[i - from] == v@[i as int]);
        }
        if c < '0' || c > '9' {
            assert(!is_digit(sub[i - from]));
            return None;
        }
        let d = digit_of(c) as u64;
        proof {
            assert(is_digit(sub[i - from]));
            assert(sub.take(i - from + 1).drop_last() =~= sub.take(i - from));
            assert(sub.take(i - from + 1).last() == sub[i - from]);
            assert(digits_val(sub.take(i - from + 1)) == digits_val(sub.take(i - from)) * 10
                + d);
            assert(forall|j: int| 0 <= j < i - from + 1 ==> is_digit(
                #[trigger] sub.take(i - from + 1)[j],
            ));
        }
        if acc > (limit - d) / 10 {
            proof {
                assert(acc >= (limit - d) / 10 + 1);
                assert(((limit - d) / 10 + 1) * 10 > limit - d);
                assert(digits_val(sub.take(i - from + 1)) > limit);
                if all_digits(sub) {
                    crate::text::lemma_digits_val_grows(sub, i - from + 1, limit as int);
                }
                assert(!int_part_ok(sub));
            }
            return None;
        }
        acc = acc * 10 + d;
        i = i + 1;
    }
    proof {
        assert(sub.take(to - from) =~= sub);
    }
    Some(acc)
}

/// Reads `v[from..to]` as a decimal number of thousandths.
#[verifier::loop_isolation(false)]
fn decimal_milli_at(v: &Vec<char>, from: usize, to: usize) -> (r: Option<u64>)
    requires
        from <= to <= v@.len(),
    ensures
        r == decimal_milli(v@.subrange(from as int, to as int)),
{
    let ghost sub = v@.subrange(from as int, to as int);
    let p = split_ranges(v, from, to, '.');
    if p.len() > 2 {
        return None;
    }
    let (a0, b0) = p[0];
    let iv = match digits_value_checked(v, a0, b0) {
        None => {
            return None;
        },
        Some(x) => x,
    };
    proof {
        lemma_digits_val_nonneg(v@.subrange(a0 as int, b0 as int));
    }
    if p.len() == 1 {
        return Some(iv * 1000);
    }
    let (a1, b1) = p[1];
    let ghost frac = v@.subrange(a1 as int, b1 as int);
    let mut j = a1;
    while j < b1
        invariant
            a1 <= j <= b1,
            all_digits(frac.take(j - a1)),
        decreases b1 - j,
    {
        let c = v[j];
        proof {
            assert(frac[j - a1] == v@[j as int]);
        }
        if c < '0' || c > '9' {
            assert(!is_digit(frac[j - a1]));
            return None;
        }
        proof {
            assert(is_digit(frac[j - a1]));
            assert(frac.take(j - a1 + 1).drop_last() =~= frac.take(j - a1));
            assert(frac.take(j - a1 + 1).last() == frac[j - a1]);
            assert(forall|t: int| 0 <= t < j - a1 + 1 ==> is_digit(
                #[trigger] frac.take(j - a1 + 1)[t],
            ));
        }
        j = j + 1;
    }
    proof {
        assert(frac.take(b1 - a1) =~= frac);
        lemma_frac_milli_bounds(frac);
    }
    let flen = b1 - a1;
    let fm: u64 = if flen == 0 {
        0
    } else if flen == 1 {
        digit_of(v[a1]) as u64 * 100
    } else if flen == 2 {
        digit_of(v[a1]) as u64 * 100 + digit_of(v[a1 + 1]) as u64 * 10
    } else {
        digit_of(v[a1]) as u64 * 100 + digit_of(v[a1 + 1]) as u64 * 10 + digit_of(
            v[a1 + 2],
        ) as u64
    };
    proof {
        assert(fm == frac_milli(frac));
    }
    Some(iv * 1000 + fm)
}

/// Reads `s`, with surrounding whitespace ignored, as a decimal count of
/// thousandths: how the probe's duration output becomes milliseconds.
#[verifier::loop_isolation(false)]
pub fn parse_duration_ms(s: &str) -> (r: Option<u64>)
    ensures
        r == decimal_milli(strip_leading_ws(strip_trailing_ws(s@))),
{
    let v = str_chars(s);
    let n = v.len();
    let mut hi = n;
    while hi > 0 && ws_char(v[hi - 1])
        invariant
            hi <= n,
            n == v@.len(),
            forall|i: int| hi <= i < n ==> is_ws(#[trigger] v@[i]),
        decreases hi,
    {
        hi = hi - 1;
    }
    proof {
        lemma_strip_trailing(v@, hi as int);
    }
    let mut lo: usize = 0;
    while lo < hi && ws_char(v[lo])
        invariant
            lo <= hi,
            forall|i: int| 0 <= i < lo ==> is_ws(#[trigger] v@[i]),
        decreases hi - lo,
    {
        lo = lo + 1;
    }
    proof {
        let t = v@.take(hi as int);
        assert(forall|i: int| 0 <= i < lo ==> is_ws(#[trigger] t[i]));
        lemma_strip_leading(t, lo as int);
        assert(t.skip(lo as int) =~= v@.subrange(lo as int, hi as int));
    }
    decimal_milli_at(&v, lo, hi)
}

// ---------------------------------------------------------------------------
// Finding the frame rate in the prober's console output
// ---------------------------------------------------------------------------

pub open spec fn fps_at(s: Seq<char>, j: int) -> bool {
    0 <= j && j + 3 <= s.len() && s[j] == 'f' && s[j + 1] == 'p' && s[j + 2] == 's'
}

/// Index of the first occurrence of `fps` in `s`, if any.
pub open spec fn find_fps(s: Seq<char>) -> Option<int>
    decreases s.len(),
{
    if s.len() < 3 {
        None
    } else if fps_at(s, 0) {
        Some(0)
    } else {
        match find_fps(s.drop_first()) {
            Some(i) => Some(i + 1),
            None => None,
        }
    }
}

/// The frame rate a single output line yields: the last token before its
/// first `fps` marker, read as a decimal count of thousandths.
pub open spec fn line_fps_value(l: Seq<char>) -> Option<u64> {
    match find_fps(l) {
        None => None,
        Some(i) => match last_token(l.take(i)) {
            None => None,
            Some(tok) => decimal_milli(tok),
        },
    }
}

/// The frame rate of the first line that yields one.
pub open spec fn fps_of_lines(lines: Seq<Seq<char>>) -> Option<u64>
    decreases lines.len(),
{
    if lines.len() == 0 {
        None
    } else {
        match line_fps_value(lines[0]) {
            Some(v) => Some(v),
            None => fps_of_lines(lines.drop_first()),
        }
    }
}

proof fn lemma_find_fps_absent(s: Seq<char>)
    requires
        forall|j: int| !fps_at(s, j),
    ensures
        find_fps(s) is None,
    decreases s.len(),
{
    if s.len() >= 3 {
        assert(forall|j: int| !fps_at(s.drop_first(), j)) by {
            assert(forall|j: int| 0 <= j && fps_at(s.drop_first(), j) ==> fps_at(s, j + 1));
        }
        lemma_find_fps_absent(s.drop_first());
    }
}

proof fn lemma_find_fps_found(s: Seq<char>, t: int)
    requires
        fps_at(s, t),
        forall|j: int| 0 <= j < t ==> !fps_at(s, j),
    ensures
        find_fps(s) == Some(t),
    decreases t,
{
    if t == 0 {
    } else {
        assert(!fps_at(s, 0));
        assert(fps_at(s.drop_first(), t - 1));
        assert(forall|j: int| 0 <= j < t - 1 ==> !fps_at(s.drop_first(), j)) by {
            assert(forall|j: int| 0 <= j < t - 1 && fps_at(s.drop_first(), j) ==> fps_at(
                s,
                j + 1,
            ));
        }
        lemma_find_fps_found(s.drop_first(), t - 1);
    }
}

/// The frame rate one line `v[a..b]` yields, if any.
#[verifier::loop_isolation(false)]
fn line_fps(v: &Vec<char>, a: usize, b: usize) -> (r: Option<u64>)
    requires
        a <= b <= v@.len(),
    ensures
        r == line_fps_value(v@.subrange(a as int, b as int)),
{
    let ghost sub = v@.subrange(a as int, b as int);
    let mut i = a;
    while i < b && b - i >= 3
        invariant
            a <= i <= b,
            forall|j: int| 0 <= j < i - a ==> !fps_at(sub, j),
        decreases b - i,
    {
        if v[i] == 'f' && v[i + 1] == 'p' && v[i + 2] == 's' {
            proof {
                assert(sub[i - a] == v@[i as int]);
                assert(sub[i - a + 1] == v@[i as int + 1]);
                assert(sub[i - a + 2] == v@[i as int + 2]);
                assert(fps_at(sub, i - a));
                lemma_find_fps_found(sub, i - a);
            }
            // strip the whitespace before the marker, then take the token
            let mut e = i;
            while e > a && ws_char(v[e - 1])
                invariant
                    a <= e <= i,
                    forall|x: int| e <= x < i ==> is_ws(#[trigger] v@[x]),
                decreases e,
            {
                e = e - 1;
            }
            let ghost head = sub.take(i - a);
            proof {
                assert(head =~= v@.subrange(a as int, i as int));
                assert(forall|x: int| e - a <= x < head.len() ==> is_ws(#[trigger] head[x]));
                lemma_strip_trailing(head, e - a);
            }
            if e == a {
                proof {
                    assert(strip_trailing_ws(head).len() == 0);
                }
                return None;
            }
            let mut st = e;
            while st > a && !ws_char(v[st - 1])
                invariant
                    a <= st <= e,
                    forall|x: int| st <= x < e ==> !is_ws(#[trigger] v@[x]),
                decreases st,
            {
                st = st - 1;
            }
            let ghost tok_src = head.take(e - a);
            proof {
                assert(tok_src =~= v@.subrange(a as int, e as int));
                assert(forall|x: int| st - a <= x < tok_src.len() ==> !is_ws(
                    #[trigger] tok_src[x],
                ));
                lemma_trailing_run(tok_src, st - a);
                assert(tok_src.skip(st - a) =~= v@.subrange(st as int, e as int));
            }
            return decimal_milli_at(v, st, e);
        }
        proof {
            assert(sub[i - a] == v@[i as int]);
            assert(sub[i - a + 1] == v@[i as int + 1]);
            assert(sub[i - a + 2] == v@[i as int + 2]);
            assert(!fps_at(sub, i - a));
        }
        i = i + 1;
    }
    proof {
        assert(forall|j: int| !fps_at(sub, j));
        lemma_find_fps_absent(sub);
    }
    None
}

/// Scans the prober's console output line by line for a `fps` marker and
/// reads the token just before the first one that has a usable number:
/// the clip's frame rate, in thousandths of a frame per second.
#[verifier::loop_isolation(false)]
pub fn extract_fps(output: &str) -> (r: Option<u64>)
    ensures
        r == fps_of_lines(split_on(output@, '\n')),
{
    let v = str_chars(output);
    proof {
        assert(v@.subrange(0, v@.len() as int) =~= output@);
    }
    let lines = split_ranges(&v, 0, v.len(), '\n');
    let ghost all = split_on(output@, '\n');
    proof {
        assert(all.skip(0) =~= all);
    }
    let mut li: usize = 0;
    while li < lines.len()
        invariant
            li <= lines@.len(),
            fps_of_lines(all) == fps_of_lines(all.skip(li as int)),
        decreases lines@.len() - li,
    {
        let (a, b) = lines[li];
        let got = line_fps(&v, a, b);
        proof {
            assert(all.skip(li as int)[0] == all[li as int]);
            assert(all.skip(li as int).drop_first() =~= all.skip(li as int + 1));
        }
        match got {
            Some(x) => {
                return Some(x);
            },
            None => {
            },
        }
        li = li + 1;
    }
    proof {
        assert(all.skip(lines@.len() as int) =~= Seq::<Seq<char>>::empty());
    }
    None
}

} // verus!
