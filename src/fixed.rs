use vstd::prelude::*;

verus! {

/// Scores are fixed-point: one unit is a billionth, so 1.0 is `SCALE`.
pub const SCALE: i64 = 1_000_000_000;

/// Largest whole part whose scaled value can still fit in an `i64`.
const WHOLE_LIMIT: u64 = 9_223_372_036;

pub open spec fn is_digit(c: char) -> bool {
    '0' <= c && c <= '9'
}

pub open spec fn digit_value(c: char) -> int {
    c as int - '0' as int
}

/// The value of a string of decimal digits.
pub open spec fn digits_value(s: Seq<char>) -> int
    decreases s.len(),
{
    if s.len() == 0 {
        0
    } else {
        digits_value(s.drop_last()) * 10 + digit_value(s.last())
    }
}

/// The end of the run of digits that starts at `i`.
pub open spec fn digit_run(s: Seq<char>, i: int) -> int
    decreases s.len() - i,
{
    if 0 <= i < s.len() && is_digit(s[i]) {
        digit_run(s, i + 1)
    } else {
        i
    }
}

/// Length of the optional leading sign.
pub open spec fn sign_len(s: Seq<char>) -> int {
    if s.len() > 0 && (s[0] == '+' || s[0] == '-') {
        1
    } else {
        0
    }
}

pub open spec fn is_negative(s: Seq<char>) -> bool {
    s.len() > 0 && s[0] == '-'
}

/// End of the whole part.
pub open spec fn whole_end(s: Seq<char>) -> int {
    digit_run(s, sign_len(s))
}

pub open spec fn has_point(s: Seq<char>) -> bool {
    whole_end(s) < s.len() && s[whole_end(s)] == '.'
}

/// End of the fractional part (meaningful when `has_point`).
pub open spec fn fraction_end(s: Seq<char>) -> int {
    digit_run(s, whole_end(s) + 1)
}

/// `[+-]digits[.digits]`, with at least one digit on one side of the point.
pub open spec fn is_decimal(s: Seq<char>) -> bool {
    if has_point(s) {
        fraction_end(s) == s.len() && (whole_end(s) > sign_len(s) || fraction_end(s) > whole_end(
            s,
        ) + 1)
    } else {
        whole_end(s) == s.len() && whole_end(s) > sign_len(s)
    }
}

/// The fractional digits, padded with zeros or cut to nine places.
pub open spec fn nine_places(f: Seq<char>) -> Seq<char> {
    Seq::new(9, |k: int| if k < f.len() { f[k] } else { '0' })
}

pub open spec fn fraction_digits(s: Seq<char>) -> Seq<char> {
    if has_point(s) {
        s.subrange(whole_end(s) + 1, fraction_end(s))
    } else {
        Seq::empty()
    }
}

/// The absolute value of a decimal, in units of `SCALE`, truncated.
pub open spec fn magnitude(s: Seq<char>) -> int {
    digits_value(s.subrange(sign_len(s), whole_end(s))) * SCALE + digits_value(
        nine_places(fraction_digits(s)),
    )
}

/// The fixed-point value of a decimal text, or None where the text is no
/// decimal or its value does not fit. Only `[+-]digits[.digits]` is read:
/// exponents (`1e-3`), `inf`, `NaN` and surrounding spaces make a text no
/// decimal.
pub open spec fn fixed_of(s: Seq<char>) -> Option<i64> {
    if is_decimal(s) && magnitude(s) <= i64::MAX {
        Some(
            if is_negative(s) {
                (-magnitude(s)) as i64
            } else {
                magnitude(s) as i64
            },
        )
    } else {
        None
    }
}

/// A text's score: its fixed-point value, or zero where it has none.
pub open spec fn score_of(s: Seq<char>) -> i64 {
    match fixed_of(s) {
        Some(v) => v,
        None => 0,
    }
}

/// Ten to the power `k`, for the nine decimal places.
pub open spec fn pow10(k: int) -> int {
    if k <= 0 {
        1
    } else if k == 1 {
        10
    } else if k == 2 {
        100
    } else if k == 3 {
        1_000
    } else if k == 4 {
        10_000
    } else if k == 5 {
        100_000
    } else if k == 6 {
        1_000_000
    } else if k == 7 {
        10_000_000
    } else if k == 8 {
        100_000_000
    } else {
        1_000_000_000
    }
}

proof fn lemma_zeros_value(s: Seq<char>)
    requires
        forall|k: int| 0 <= k < s.len() ==> #[trigger] s[k] == '0',
    ensures
        digits_value(s) == 0,
    decreases s.len(),
{
    if s.len() > 0 {
        lemma_zeros_value(s.drop_last());
    }
}

proof fn lemma_fraction_nonneg(s: Seq<char>)
    ensures
        digits_value(nine_places(fraction_digits(s))) >= 0,
{
    let p = nine_places(fraction_digits(s));
    lemma_digit_run_bounds(s, sign_len(s));
    if has_point(s) {
        lemma_digit_run_bounds(s, whole_end(s) + 1);
    }
    assert forall|k: int| 0 <= k < p.len() implies is_digit(#[trigger] p[k]) by {
        if k < fraction_digits(s).len() {
            assert(fraction_digits(s)[k] == s[whole_end(s) + 1 + k]);
        }
    }
    lemma_digits_value_grows(p, 0);
    assert(p.take(0) =~= Seq::<char>::empty());
}

proof fn lemma_digit_run_bounds(s: Seq<char>, i: int)
    requires
        0 <= i <= s.len(),
    ensures
        i <= digit_run(s, i) <= s.len(),
        forall|k: int| i <= k < digit_run(s, i) ==> is_digit(#[trigger] s[k]),
        digit_run(s, i) < s.len() ==> !is_digit(s[digit_run(s, i)]),
    decreases s.len() - i,
{
    if i < s.len() && is_digit(s[i]) {
        lemma_digit_run_bounds(s, i + 1);
    }
}

proof fn lemma_digits_value_grows(s: Seq<char>, m: int)
    requires
        0 <= m <= s.len(),
        forall|k: int| 0 <= k < s.len() ==> is_digit(#[trigger] s[k]),
    ensures
        0 <= digits_value(s.take(m)) <= digits_value(s),
    decreases s.len(),
{
    if s.len() > 0 {
        let t = s.drop_last();
        assert forall|k: int| 0 <= k < t.len() implies is_digit(#[trigger] t[k]) by {
            assert(t[k] == s[k]);
        }
        if m == s.len() {
            assert(s.take(m) =~= s);
            lemma_digits_value_grows(t, t.len() as int);
            assert(t.take(t.len() as int) =~= t);
        } else {
            lemma_digits_value_grows(t, m);
            assert(t.take(m) =~= s.take(m));
            lemma_digits_value_grows(t, t.len() as int);
            assert(t.take(t.len() as int) =~= t);
        }
    }
}

/// Reads a decimal text of the form `[+-]digits[.digits]`, such as `-12.5`,
/// as a fixed-point number of billionths; digits past the ninth decimal place
/// are dropped. Any other text (an exponent, `inf`, `NaN`) gives None.
pub fn parse_fixed(s: &str) -> (r: Option<i64>)
    ensures
        r == fixed_of(s@),
{
    let ghost t = s@;
    let n = s.unicode_len();
    let mut i: usize = 0;
    let negative = n > 0 && s.get_char(0) == '-';
    if n > 0 && (s.get_char(0) == '+' || s.get_char(0) == '-') {
        i = 1;
    }
    let start = i;
    assert(start == sign_len(t));
    proof {
        lemma_digit_run_bounds(t, start as int);
    }
    let mut whole: u64 = 0;
    while i < n && '0' <= s.get_char(i) && s.get_char(i) <= '9'
        invariant
            n == t.len(),
            t == s@,
            start == sign_len(t),
            start <= i <= n,
            digit_run(t, start as int) == digit_run(t, i as int),
            start <= digit_run(t, start as int) <= n,
            forall|q: int| start <= q < digit_run(t, start as int) ==> is_digit(#[trigger] t[q]),
            whole as int == digits_value(t.subrange(start as int, i as int)),
            whole <= WHOLE_LIMIT,
        decreases n - i,
    {
        let c = s.get_char(i);
        let d = (c as u32 - '0' as u32) as u64;
        let next = whole * 10 + d;
        assert(t.subrange(start as int, i + 1).drop_last() =~= t.subrange(start as int, i as int));
        if next > WHOLE_LIMIT {
            proof {
                let w = t.subrange(start as int, whole_end(t));
                lemma_digit_run_bounds(t, i as int);
                assert forall|k: int| 0 <= k < w.len() implies is_digit(#[trigger] w[k]) by {
                    assert(w[k] == t[start + k]);
                }
                lemma_digits_value_grows(w, i + 1 - start);
                assert(w.take(i + 1 - start) =~= t.subrange(start as int, i + 1));
                lemma_fraction_nonneg(t);
            }
            return None;
        }
        whole = next;
        i = i + 1;
    }
    proof {
        lemma_digit_run_bounds(t, i as int);
    }
    assert(i == whole_end(t));
    let whole_end_i = i;
    let point = i < n && s.get_char(i) == '.';
    let mut frac_end = i;
    let mut frac: u64 = 0;
    if point {
        let fstart = i + 1;
        proof {
            lemma_digit_run_bounds(t, fstart as int);
        }
        frac_end = fstart;
        while frac_end < n && '0' <= s.get_char(frac_end) && s.get_char(frac_end) <= '9'
            invariant
                n == t.len(),
                t == s@,
                fstart <= frac_end <= n,
                digit_run(t, fstart as int) == digit_run(t, frac_end as int),
            decreases n - frac_end,
        {
            frac_end = frac_end + 1;
        }
        proof {
            lemma_digit_run_bounds(t, frac_end as int);
        }
        assert(frac_end == fraction_end(t));
        let ghost f = fraction_digits(t);
        let ghost p9 = nine_places(f);
        let mut k: usize = 0;
        while k < 9
            invariant
                n == t.len(),
                t == s@,
                has_point(t),
                fstart == whole_end(t) + 1,
                frac_end == fraction_end(t),
                fstart <= frac_end <= n,
                f == t.subrange(fstart as int, frac_end as int),
                p9 == nine_places(f),
                forall|q: int| fstart <= q < frac_end ==> is_digit(#[trigger] t[q]),
                k <= 9,
                frac as int == digits_value(p9.take(k as int)),
                frac < pow10(k as int),
            decreases 9 - k,
        {
            let d: u64 = if k < frac_end - fstart {
                assert(is_digit(t[fstart + k]));
                (s.get_char(fstart + k) as u32 - '0' as u32) as u64
            } else {
                0
            };
            assert(p9.take(k + 1).drop_last() =~= p9.take(k as int));
            assert(d == digit_value(p9[k as int]));
            frac = frac * 10 + d;
            k = k + 1;
        }
        assert(p9.take(9) =~= p9);
    }
    proof {
        if !point {
            assert(fraction_digits(t) =~= Seq::<char>::empty());
            lemma_zeros_value(nine_places(fraction_digits(t)));
        }
    }
    let well_formed = if point {
        frac_end == n && (whole_end_i > start || frac_end > whole_end_i + 1)
    } else {
        whole_end_i == n && whole_end_i > start
    };
    if !well_formed {
        return None;
    }
    let mag: u64 = whole * 1_000_000_000 + frac;
    if mag > i64::MAX as u64 {
        return None;
    }
    if negative {
        Some(-(mag as i64))
    } else {
        Some(mag as i64)
    }
}

/// A field's score under the tolerant policy: its fixed-point value, or zero
/// where the text is not a decimal.
pub fn parse_score(s: &str) -> (r: i64)
    ensures
        r == score_of(s@),
{
    match parse_fixed(s) {
        Some(v) => v,
        None => 0,
    }
}

} // verus!
