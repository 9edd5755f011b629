use vstd::prelude::*;

verus! {

// ---------------------------------------------------------------------------
// Digit strings
// ---------------------------------------------------------------------------

pub open spec fn is_digit(c: char) -> bool {
    '0' <= c && c <= '9'
}

pub open spec fn digit_val(c: char) -> int {
    c as int - 48
}

pub open spec fn all_digits(s: Seq<char>) -> bool {
    forall|i: int| 0 <= i < s.len() ==> is_digit(#[trigger] s[i])
}

/// Value of a digit string read in base ten, most significant digit first.
pub open spec fn digits_val(s: Seq<char>) -> int
    decreases s.len(),
{
    if s.len() == 0 {
        0
    } else {
        digits_val(s.drop_last()) * 10 + digit_val(s.last())
    }
}

/// A numeric field as the lenient timestamp parser reads it: a non-empty run
/// of digits whose value fits in `u32`; anything else counts as zero.
pub open spec fn field_val(s: Seq<char>) -> u32 {
    if s.len() > 0 && all_digits(s) && digits_val(s) <= u32::MAX {
        digits_val(s) as u32
    } else {
        0
    }
}

pub proof fn lemma_digits_val_nonneg(s: Seq<char>)
    requires
        all_digits(s),
    ensures
        digits_val(s) >= 0,
    decreases s.len(),
{
    if s.len() > 0 {
        assert(forall|i: int|
            0 <= i < s.drop_last().len() ==> is_digit(#[trigger] s.drop_last()[i]));
        lemma_digits_val_nonneg(s.drop_last());
    }
}

/// Once a prefix of a digit string exceeds a non-negative bound, the whole
/// string does.
pub proof fn lemma_digits_val_grows(s: Seq<char>, i: int, bound: int)
    requires
        0 <= i <= s.len(),
        all_digits(s),
        digits_val(s.take(i)) > bound,
        bound >= 0,
    ensures
        digits_val(s) > bound,
    decreases s.len() - i,
{
    if i < s.len() {
        assert(s.take(i + 1).drop_last() =~= s.take(i));
        assert(s.take(i + 1).last() == s[i]);
        lemma_digits_val_grows(s, i + 1, bound);
    } else {
        assert(s.take(i) =~= s);
    }
}

pub proof fn lemma_digits_val_prepend_zero(s: Seq<char>)
    ensures
        digits_val(seq!['0'] + s) == digits_val(s),
    decreases s.len(),
{
    if s.len() == 0 {
        assert(seq!['0'] + s =~= seq!['0']);
        assert((seq!['0']).drop_last() =~= Seq::<char>::empty());
        assert(digits_val(Seq::<char>::empty()) == 0);
        assert(digits_val(seq!['0']) == digits_val(Seq::<char>::empty()) * 10 + digit_val('0'));
        assert(digit_val('0') == 0);
    } else {
        assert((seq!['0'] + s).drop_last() =~= seq!['0'] + s.drop_last());
        assert((seq!['0'] + s).last() == s.last());
        lemma_digits_val_prepend_zero(s.drop_last());
        assert(digits_val(seq!['0'] + s)
            == digits_val(seq!['0'] + s.drop_last()) * 10 + digit_val(s.last()));
        assert(digits_val(s) == digits_val(s.drop_last()) * 10 + digit_val(s.last()));
    }
}

// ---------------------------------------------------------------------------
// Decimal rendering, with the zero padding the canonical form uses
// ---------------------------------------------------------------------------

pub open spec fn digit_char(d: int) -> char {
    if d == 0 { '0' }
    else if d == 1 { '1' }
    else if d == 2 { '2' }
    else if d == 3 { '3' }
    else if d == 4 { '4' }
    else if d == 5 { '5' }
    else if d == 6 { '6' }
    else if d == 7 { '7' }
    else if d == 8 { '8' }
    else { '9' }
}

/// Base-ten rendering of `n`, most significant digit first, no padding.
pub open spec fn dec_rep(n: nat) -> Seq<char>
    decreases n,
{
    if n < 10 {
        seq![digit_char(n as int)]
    } else {
        dec_rep(n / 10) + seq![digit_char((n % 10) as int)]
    }
}

/// `n` rendered to at least two digits, as `%02d` does.
pub open spec fn pad2(n: nat) -> Seq<char> {
    if n < 10 {
        seq!['0'] + dec_rep(n)
    } else {
        dec_rep(n)
    }
}

/// `n` rendered to at least three digits, as `%03d` does.
pub open spec fn pad3(n: nat) -> Seq<char> {
    if n < 10 {
        seq!['0', '0'] + dec_rep(n)
    } else if n < 100 {
        seq!['0'] + dec_rep(n)
    } else {
        dec_rep(n)
    }
}

pub proof fn lemma_dec_rep(n: nat)
    ensures
        all_digits(dec_rep(n)),
        digits_val(dec_rep(n)) == n,
        dec_rep(n).len() >= 1,
    decreases n,
{
    if n < 10 {
        assert(dec_rep(n) =~= seq![digit_char(n as int)]);
        assert((seq![digit_char(n as int)]).drop_last() =~= Seq::<char>::empty());
        assert(digits_val(Seq::<char>::empty()) == 0);
        assert(digit_char(n as int) as int == n + 48);
        assert(forall|i: int| 0 <= i < dec_rep(n).len()
            ==> is_digit(#[trigger] dec_rep(n)[i]));
    } else {
        lemma_dec_rep(n / 10);
        assert(dec_rep(n).drop_last() =~= dec_rep(n / 10));
        assert(dec_rep(n).last() == digit_char((n % 10) as int));
        assert(digit_char((n % 10) as int) as int == (n % 10) + 48);
        assert(digits_val(dec_rep(n))
            == digits_val(dec_rep(n / 10)) * 10 + digit_val(dec_rep(n).last()));
        assert(forall|i: int| 0 <= i < dec_rep(n).len()
            ==> is_digit(#[trigger] dec_rep(n)[i]));
    }
}

pub proof fn lemma_pad2(n: nat)
    ensures
        all_digits(pad2(n)),
        digits_val(pad2(n)) == n,
        pad2(n).len() >= 1,
{
    lemma_dec_rep(n);
    if n < 10 {
        lemma_digits_val_prepend_zero(dec_rep(n));
        assert('0' as int == 48);
    }
}

pub proof fn lemma_pad3(n: nat)
    ensures
        all_digits(pad3(n)),
        digits_val(pad3(n)) == n,
        pad3(n).len() >= 1,
{
    lemma_dec_rep(n);
    assert('0' as int == 48);
    if n < 10 {
        lemma_digits_val_prepend_zero(dec_rep(n));
        lemma_digits_val_prepend_zero(seq!['0'] + dec_rep(n));
        assert(seq!['0', '0'] + dec_rep(n) =~= seq!['0'] + (seq!['0'] + dec_rep(n)));
    } else if n < 100 {
        lemma_digits_val_prepend_zero(dec_rep(n));
    }
}

// ---------------------------------------------------------------------------
// Splitting on a separator character
// ---------------------------------------------------------------------------

/// The fields of `s` between occurrences of `sep`, as `str::split` yields
/// them: always at least one field, empty fields kept.
pub open spec fn split_on(s: Seq<char>, sep: char) -> Seq<Seq<char>>
    decreases s.len(),
{
    if s.len() == 0 {
        seq![Seq::<char>::empty()]
    } else if s[0] == sep {
        seq![Seq::<char>::empty()] + split_on(s.drop_first(), sep)
    } else {
        let rest = split_on(s.drop_first(), sep);
        seq![seq![s[0]] + rest[0]] + rest.drop_first()
    }
}

pub proof fn lemma_split_on_len(s: Seq<char>, sep: char)
    ensures
        split_on(s, sep).len() >= 1,
    decreases s.len(),
{
    if s.len() > 0 {
        lemma_split_on_len(s.drop_first(), sep);
    }
}

/// Peeling one field off the front of a split: if `p` is the index of the
/// first separator (or the length, when there is none), the first field is
/// `s.take(p)` and the remaining fields are those of the text after it.
pub proof fn lemma_split_on_step(s: Seq<char>, sep: char, p: int)
    requires
        0 <= p <= s.len(),
        forall|i: int| 0 <= i < p ==> s[i] != sep,
        p < s.len() ==> s[p] == sep,
    ensures
        p == s.len() ==> split_on(s, sep) == seq![s],
        p < s.len() ==> split_on(s, sep) == seq![s.take(p)] + split_on(s.skip(p + 1), sep),
    decreases s.len(),
{
    if s.len() == 0 {
        assert(s =~= Seq::<char>::empty());
    } else if p == 0 {
        assert(s.take(0) =~= Seq::<char>::empty());
        assert(s.skip(1) =~= s.drop_first());
        assert(split_on(s, sep) =~= seq![s.take(0)] + split_on(s.skip(1), sep));
    } else {
        lemma_split_on_step(s.drop_first(), sep, p - 1);
        lemma_split_on_len(s.drop_first(), sep);
        let rest = split_on(s.drop_first(), sep);
        if p == s.len() {
            assert(rest == seq![s.drop_first()]);
            assert(seq![s[0]] + rest[0] =~= s);
            assert(rest.drop_first() =~= Seq::<Seq<char>>::empty());
            assert(split_on(s, sep) =~= seq![s]);
        } else {
            assert(s.drop_first().skip(p) =~= s.skip(p + 1));
            assert(rest == seq![s.drop_first().take(p - 1)] + split_on(s.skip(p + 1), sep));
            assert(rest[0] == s.drop_first().take(p - 1));
            assert(seq![s[0]] + s.drop_first().take(p - 1) =~= s.take(p));
            assert(rest.drop_first() =~= split_on(s.skip(p + 1), sep));
            assert(split_on(s, sep) =~= seq![s.take(p)] + split_on(s.skip(p + 1), sep));
        }
    }
}

// ---------------------------------------------------------------------------
// Executable helpers
// ---------------------------------------------------------------------------

/// The characters of `s`, in order.
pub fn str_chars(s: &str) -> (r: Vec<char>)
    ensures
        r@ == s@,
{
    let n = s.unicode_len();
    let mut r: Vec<char> = Vec::new();
    let mut i: usize = 0;
    while i < n
        invariant
            i <= n,
            n == s@.len(),
            r@ == s@.take(i as int),
        decreases n - i,
    {
        let c = s.get_char(i);
        r.push(c);
        i = i + 1;
        proof {
            assert(r@ =~= s@.take(i as int));
        }
    }
    proof {
        assert(s@.take(n as int) =~= s@);
    }
    r
}

/// Relies on `String::from_iter` over `Vec<char>`: the collected string holds
/// exactly the given characters, in order.
#[verifier::external_body]
pub(crate) fn string_from_chars(v: Vec<char>) -> (r: String)
    ensures
        r@ == v@,
{
    v.into_iter().collect()
}

/// Index of the first occurrence of `sep` in `v[from..to]`, if any.
pub fn find_sep(v: &Vec<char>, from: usize, to: usize, sep: char) -> (r: Option<usize>)
    requires
        from <= to <= v@.len(),
    ensures
        match r {
            Some(i) => from <= i < to && v@[i as int] == sep
                && forall|j: int| from <= j < i ==> v@[j] != sep,
            None => forall|j: int| from <= j < to ==> v@[j] != sep,
        },
{
    let mut i = from;
    while i < to
        invariant
            from <= i <= to <= v@.len(),
            forall|j: int| from <= j < i ==> v@[j] != sep,
        decreases to - i,
    {
        if v[i] == sep {
            return Some(i);
        }
        i = i + 1;
    }
    None
}

/// The field boundaries of `v[from..to]` split on `sep`: field `k` of the
/// split is `v[r[k].0 .. r[k].1]`.
pub fn split_ranges(v: &Vec<char>, from: usize, to: usize, sep: char) -> (r: Vec<(usize, usize)>)
    requires
        from <= to <= v@.len(),
    ensures
        r@.len() == split_on(v@.subrange(from as int, to as int), sep).len(),
        forall|k: int| 0 <= k < r@.len() ==> {
            &&& from <= (#[trigger] r@[k]).0
            &&& r@[k].0 <= r@[k].1 <= to
            &&& v@.subrange(r@[k].0 as int, r@[k].1 as int)
                == split_on(v@.subrange(from as int, to as int), sep)[k]
        },
{
    let ghost whole = split_on(v@.subrange(from as int, to as int), sep);
    let mut r: Vec<(usize, usize)> = Vec::new();
    let mut start = from;
    loop
        invariant
            from <= start <= to <= v@.len(),
            whole == split_on(v@.subrange(from as int, to as int), sep),
            r@.len() + split_on(v@.subrange(start as int, to as int), sep).len() == whole.len(),
            forall|k: int| 0 <= k < r@.len() ==> {
                &&& from <= (#[trigger] r@[k]).0
                &&& r@[k].0 <= r@[k].1 <= to
                &&& v@.subrange(r@[k].0 as int, r@[k].1 as int) == whole[k]
            },
            forall|j: int| 0 <= j < split_on(v@.subrange(start as int, to as int), sep).len()
                ==> #[trigger] split_on(v@.subrange(start as int, to as int), sep)[j]
                    == whole[r@.len() + j],
        decreases to - start,
    {
        let ghost sub = v@.subrange(start as int, to as int);
        let ghost done = r@.len() as int;
        match find_sep(v, start, to, sep) {
            None => {
                proof {
                    assert(forall|i: int| 0 <= i < sub.len() ==> sub[i] == v@[start + i]);
                    lemma_split_on_step(sub, sep, sub.len() as int);
                    assert(split_on(sub, sep) == seq![sub]);
                    assert(split_on(sub, sep)[0] == whole[done]);
                    assert(whole[done] == sub);
                }
                r.push((start, to));
                return r;
            },
            Some(i) => {
                proof {
                    assert(forall|j: int| 0 <= j < sub.len() ==> sub[j] == v@[start + j]);
                    lemma_split_on_step(sub, sep, i - start);
                    assert(split_on(sub, sep)
                        == seq![sub.take(i - start)] + split_on(sub.skip(i - start + 1), sep));
                    assert(sub.take(i - start) =~= v@.subrange(start as int, i as int));
                    assert(sub.skip(i - start + 1) =~= v@.subrange(i + 1, to as int));
                    assert(split_on(sub, sep)[0] == whole[done]);
                    assert(whole[done] == v@.subrange(start as int, i as int));
                    assert(forall|j: int|
                        0 <= j < split_on(v@.subrange(i + 1, to as int), sep).len()
                        ==> #[trigger] split_on(v@.subrange(i + 1, to as int), sep)[j]
                            == split_on(sub, sep)[j + 1]);
                }
                r.push((start, i));
                start = i + 1;
            },
        }
    }
}

/// Reads `v[from..to]` as a numeric field: the value of a non-empty all-digit
/// run that fits in `u32`, and zero otherwise.
pub fn parse_field(v: &Vec<char>, from: usize, to: usize) -> (r: u32)
    requires
        from <= to <= v@.len(),
    ensures
        r == field_val(v@.subrange(from as int, to as int)),
{
    let ghost sub = v@.subrange(from as int, to as int);
    if from == to {
        return 0;
    }
    let mut acc: u64 = 0;
    let mut over: bool = false;
    let mut i = from;
    while i < to
        invariant
            from <= i <= to <= v@.len(),
            sub == v@.subrange(from as int, to as int),
            all_digits(sub.take(i - from)),
            !over ==> acc == digits_val(sub.take(i - from)) && acc <= u32::MAX,
            over ==> digits_val(sub.take(i - from)) > u32::MAX,
        decreases to - i,
    {
        let c = v[i];
        proof {
            assert(sub[i - from] == v@[i as int]);
        }
        if c < '0' || c > '9' {
            assert(!is_digit(sub[i - from]));
            return 0;
        }
        let d = digit_of(c) as u64;
        proof {
            assert(is_digit(sub[i - from]));
            assert(sub.take(i - from + 1).drop_last() =~= sub.take(i - from));
            assert(sub.take(i - from + 1).last() == sub[i - from]);
            assert(digits_val(sub.take(i - from + 1))
                == digits_val(sub.take(i - from)) * 10 + d);
            assert(forall|j: int| 0 <= j < i - from + 1
                ==> is_digit(#[trigger] sub.take(i - from + 1)[j]));
        }
        if over {
            proof {
                assert(digits_val(sub.take(i - from)) * 10 + d > u32::MAX);
            }
        } else {
            if acc > (u32::MAX as u64 - d) / 10 {
                proof {
                    assert(acc >= (u32::MAX as u64 - d) / 10 + 1);
                    assert(((u32::MAX as u64 - d) / 10 + 1) * 10 > u32::MAX as u64 - d);
                    assert(acc * 10 + d > u32::MAX);
                }
                over = true;
            } else {
                acc = acc * 10 + d;
            }
        }
        i = i + 1;
    }
    proof {
        assert(sub.take(to - from) =~= sub);
    }
    if over {
        0
    } else {
        acc as u32
    }
}

/// The numeric value of a digit character.
pub fn digit_of(c: char) -> (d: u8)
    requires
        is_digit(c),
    ensures
        d == digit_val(c),
{
    if c == '0' { 0 }
    else if c == '1' { 1 }
    else if c == '2' { 2 }
    else if c == '3' { 3 }
    else if c == '4' { 4 }
    else if c == '5' { 5 }
    else if c == '6' { 6 }
    else if c == '7' { 7 }
    else if c == '8' { 8 }
    else { 9 }
}

/// The digit character for a value below ten.
pub fn char_of_digit(d: u64) -> (c: char)
    requires
        d < 10,
    ensures
        c == digit_char(d as int),
{
    if d == 0 { '0' }
    else if d == 1 { '1' }
    else if d == 2 { '2' }
    else if d == 3 { '3' }
    else if d == 4 { '4' }
    else if d == 5 { '5' }
    else if d == 6 { '6' }
    else if d == 7 { '7' }
    else if d == 8 { '8' }
    else { '9' }
}

/// Appends the decimal rendering of `n`.
pub fn push_dec(out: &mut Vec<char>, n: u64)
    ensures
        final(out)@ == old(out)@ + dec_rep(n as nat),
    decreases n,
{
    if n < 10 {
        out.push(char_of_digit(n));
        proof {
            assert(out@ =~= old(out)@ + dec_rep(n as nat));
        }
    } else {
        push_dec(out, n / 10);
        out.push(char_of_digit(n % 10));
        proof {
            assert(out@ =~= old(out)@ + dec_rep(n as nat));
        }
    }
}

/// Appends `n` zero-padded to at least two digits.
pub fn push_pad2(out: &mut Vec<char>, n: u64)
    ensures
        final(out)@ == old(out)@ + pad2(n as nat),
{
    if n < 10 {
        out.push('0');
    }
    push_dec(out, n);
    proof {
        assert(out@ =~= old(out)@ + pad2(n as nat));
    }
}

/// Appends `n` zero-padded to at least three digits.
pub fn push_pad3(out: &mut Vec<char>, n: u64)
    ensures
        final(out)@ == old(out)@ + pad3(n as nat),
{
    if n < 10 {
        out.push('0');
        out.push('0');
    } else if n < 100 {
        out.push('0');
    }
    push_dec(out, n);
    proof {
        assert(out@ =~= old(out)@ + pad3(n as nat));
    }
}

} // verus!
