use crate::error::RateError;
use vstd::prelude::*;
use vstd::string::StrSliceExecFns;

verus! {

/// One dated observation; `value` is in hundredths (0.28 is held as 28).
pub struct DataPoint {
    pub date: String,
    pub value: i64,
}

impl View for DataPoint {
    type V = (Seq<char>, i64);

    open spec fn view(&self) -> (Seq<char>, i64) {
        (self.date@, self.value)
    }
}

pub open spec fn is_digit(c: char) -> bool {
    '0' <= c && c <= '9'
}

pub open spec fn digit_value(c: char) -> int {
    (c as int) - ('0' as int)
}

pub open spec fn all_digits(s: Seq<char>) -> bool {
    forall|k: int| 0 <= k < s.len() ==> is_digit(#[trigger] s[k])
}

/// The number that a string of decimal digits denotes.
pub open spec fn digits_value(s: Seq<char>) -> int
    decreases s.len(),
{
    if s.len() == 0 {
        0
    } else {
        digits_value(s.drop_last()) * 10 + digit_value(s.last())
    }
}

/// 1 where the text starts with a sign, else 0.
pub open spec fn sign_len(t: Seq<char>) -> int {
    if t.len() > 0 && (t[0] == '-' || t[0] == '+') {
        1
    } else {
        0
    }
}

/// Position of the first '.' of `b` from position `k` on, or `b.len()`.
pub open spec fn dot_from(b: Seq<char>, k: int) -> int
    decreases b.len() - k,
{
    if k < 0 || k >= b.len() {
        b.len() as int
    } else if b[k] == '.' {
        k
    } else {
        dot_from(b, k + 1)
    }
}

/// Position of the first exponent marker ('e' or 'E') of `b` from position
/// `k` on, or `b.len()`.
pub open spec fn exp_from(b: Seq<char>, k: int) -> int
    decreases b.len() - k,
{
    if k < 0 || k >= b.len() {
        b.len() as int
    } else if b[k] == 'e' || b[k] == 'E' {
        k
    } else {
        exp_from(b, k + 1)
    }
}

/// The text after its sign.
pub open spec fn unsigned_text(t: Seq<char>) -> Seq<char> {
    t.skip(sign_len(t))
}

/// The part of the unsigned text before the exponent marker.
pub open spec fn mantissa(t: Seq<char>) -> Seq<char> {
    let b = unsigned_text(t);
    b.take(exp_from(b, 0))
}

pub open spec fn has_exponent(t: Seq<char>) -> bool {
    exp_from(unsigned_text(t), 0) < unsigned_text(t).len()
}

/// The text after the exponent marker (with its sign); empty without one.
pub open spec fn exponent_text(t: Seq<char>) -> Seq<char> {
    let b = unsigned_text(t);
    if has_exponent(t) {
        b.skip(exp_from(b, 0) + 1)
    } else {
        Seq::empty()
    }
}

pub open spec fn exponent_digits(t: Seq<char>) -> Seq<char> {
    exponent_text(t).skip(sign_len(exponent_text(t)))
}

/// The power of ten that the exponent gives; 0 without one.
pub open spec fn exponent_value(t: Seq<char>) -> int {
    let e = exponent_text(t);
    if e.len() > 0 && e[0] == '-' {
        -digits_value(exponent_digits(t))
    } else {
        digits_value(exponent_digits(t))
    }
}

/// The digits before the decimal point.
pub open spec fn int_digits(t: Seq<char>) -> Seq<char> {
    let m = mantissa(t);
    m.take(dot_from(m, 0))
}

/// The digits after the decimal point; none where there is no point.
pub open spec fn frac_digits(t: Seq<char>) -> Seq<char> {
    let m = mantissa(t);
    let d = dot_from(m, 0);
    if d < m.len() {
        m.skip(d + 1)
    } else {
        Seq::empty()
    }
}

/// A decimal number: an optional sign, digits with an optional point among or
/// after them (at least one digit in all), and optionally an exponent marker
/// followed by an optional sign and at least one digit.
pub open spec fn is_number(t: Seq<char>) -> bool {
    &&& all_digits(int_digits(t))
    &&& all_digits(frac_digits(t))
    &&& int_digits(t).len() + frac_digits(t).len() > 0
    &&& has_exponent(t) ==> exponent_digits(t).len() > 0 && all_digits(exponent_digits(t))
}

/// All the digits of the mantissa, point removed.
pub open spec fn significand(t: Seq<char>) -> Seq<char> {
    int_digits(t) + frac_digits(t)
}

/// The digit of `s` at position `k`; 0 outside `s`.
pub open spec fn padded_digit(s: Seq<char>, k: int) -> int {
    if 0 <= k < s.len() {
        digit_value(s[k])
    } else {
        0
    }
}

/// The number that the first `m` digits of `s` denote, with zeros past its end.
pub open spec fn place_value(s: Seq<char>, m: int) -> int
    decreases m,
{
    if m <= 0 {
        0
    } else {
        place_value(s, m - 1) * 10 + padded_digit(s, m - 1)
    }
}

/// How many digits of the significand stand before the point once the value
/// is counted in hundredths.
pub open spec fn cent_position(t: Seq<char>) -> int {
    int_digits(t).len() + exponent_value(t) + 2
}

/// The number that the first `cent` digits of `s` denote, rounded half up on
/// the digit that follows them.
pub open spec fn rounded_at(s: Seq<char>, cent: int) -> int {
    place_value(s, cent) + if padded_digit(s, cent) >= 5 {
        1int
    } else {
        0int
    }
}

/// The magnitude of a number in hundredths, rounded half up: the digit right
/// after the cents decides.
pub open spec fn rounded_magnitude(t: Seq<char>) -> int {
    rounded_at(significand(t), cent_position(t))
}

/// A number rounded to hundredths, half away from zero.
pub open spec fn rounded_hundredths(t: Seq<char>) -> int {
    if t.len() > 0 && t[0] == '-' {
        -rounded_magnitude(t)
    } else {
        rounded_magnitude(t)
    }
}

proof fn lemma_digits_value_nonneg(s: Seq<char>)
    requires
        all_digits(s),
    ensures
        digits_value(s) >= 0,
    decreases s.len(),
{
    if s.len() > 0 {
        lemma_digits_value_nonneg(s.drop_last());
    }
}

proof fn lemma_dot_from_at_least(b: Seq<char>, k: int)
    requires
        0 <= k,
    ensures
        k <= dot_from(b, k) <= b.len() || (k > b.len() && dot_from(b, k) == b.len()),
    decreases b.len() - k,
{
    if k < b.len() && b[k] != '.' {
        lemma_dot_from_at_least(b, k + 1);
    }
}

proof fn lemma_place_value_monotone(s: Seq<char>, k: int, m: int)
    requires
        all_digits(s),
        k <= m,
    ensures
        0 <= place_value(s, k) <= place_value(s, m),
    decreases m - k,
{
    if k < m {
        lemma_place_value_monotone(s, k, m - 1);
    } else {
        lemma_place_value_nonneg(s, m);
    }
}

proof fn lemma_place_value_nonneg(s: Seq<char>, m: int)
    requires
        all_digits(s),
    ensures
        place_value(s, m) >= 0,
    decreases m,
{
    if m > 0 {
        lemma_place_value_nonneg(s, m - 1);
    }
}

proof fn lemma_place_value_stays_zero(s: Seq<char>, k: int, m: int)
    requires
        k >= s.len(),
        k <= m,
        place_value(s, k) == 0,
    ensures
        place_value(s, m) == 0,
    decreases m - k,
{
    if k < m {
        lemma_place_value_stays_zero(s, k, m - 1);
    }
}

/// Largest exponent magnitude that is read exactly; past it, the value is 0
/// or beyond any `i64` for every text that memory can hold.
const EXP_CAP: i128 = 100_000_000_000_000_000_000;

fn digit_of(c: char) -> (r: Option<i64>)
    ensures
        r is Some <==> is_digit(c),
        r is Some ==> r->Some_0 == digit_value(c) && 0 <= r->Some_0 <= 9,
{
    if '0' <= c && c <= '9' {
        Some((c as u32 - '0' as u32) as i64)
    } else {
        None
    }
}

fn is_exp_marker(c: char) -> (r: bool)
    ensures
        r == (c == 'e' || c == 'E'),
{
    c == 'e' || c == 'E'
}

/// The digit at position `k` of the significand whose integer digits stand at
/// `start..i` of `s` and whose fraction digits stand at `fs..e`.
fn sig_digit(s: &str, start: usize, i: usize, fs: usize, e: usize, k: usize) -> (r: i64)
    requires
        start <= i <= fs <= e <= s@.len(),
        k < (i - start) + (e - fs),
        forall|j: int| start <= j < i ==> is_digit(#[trigger] s@[j]),
        forall|j: int| fs <= j < e ==> is_digit(#[trigger] s@[j]),
    ensures
        r == digit_value((s@.subrange(start as int, i as int) + s@.subrange(fs as int, e as int))[k as int]),
        0 <= r <= 9,
{
    let c = if k < i - start {
        s.get_char(start + k)
    } else {
        s.get_char(fs + (k - (i - start)))
    };
    match digit_of(c) {
        Some(d) => d,
        None => 0,
    }
}

/// The significand whose integer digits stand at `start..i` of `text` and
/// whose fraction digits stand at `fs..e`, counted with `cent` digits before
/// the point and rounded half up (see `rounded_at`); nothing where that does
/// not fit in an `i64`. `cp` is `cent` itself, or stands for it where `cent`
/// lies so far out that the result is the same.
fn round_significand(
    text: &str,
    start: usize,
    i: usize,
    fs: usize,
    e: usize,
    cp: i128,
    Ghost(cent): Ghost<int>,
) -> (r: Option<i64>)
    requires
        start <= i <= fs <= e <= text@.len(),
        forall|j: int| start <= j < i ==> is_digit(#[trigger] text@[j]),
        forall|j: int| fs <= j < e ==> is_digit(#[trigger] text@[j]),
        cp == cent || (cent > cp && cp >= (i - start) + (e - fs) + 0x8000_0000_0000_0000i128)
            || (cent < cp && cp < 0),
    ensures
        ({
            let sig = text@.subrange(start as int, i as int) + text@.subrange(fs as int, e as int);
            &&& r is Some <==> rounded_at(sig, cent) <= i64::MAX
            &&& r is Some ==> r->Some_0 as int == rounded_at(sig, cent) && r->Some_0 >= 0
        }),
{
    let ghost t = text@;
    let len = text.unicode_len();
    let ghost sig = t.subrange(start as int, i as int) + t.subrange(fs as int, e as int);
    let nd: usize = (i - start) + (e - fs);
    assert(all_digits(sig)) by {
        assert forall|k: int| 0 <= k < sig.len() implies is_digit(#[trigger] sig[k]) by {
            if k < i - start {
                assert(sig[k] == t[start + k]);
            } else {
                assert(sig[k] == t[fs + k - (i - start)]);
            }
        }
    }
    // The digits up to the cents.
    let mut acc: i64 = 0;
    let mut big = false;
    let mut k2: i128 = 0;
    while k2 < cp && k2 < nd as i128 && !big
        invariant
            0 <= k2 <= nd,
            k2 == 0 || k2 <= cp,
            nd == sig.len(),
            sig == t.subrange(start as int, i as int) + t.subrange(fs as int, e as int),
            start <= i <= fs <= e <= len,
            len == t.len(),
            t == text@,
            nd == (i - start) + (e - fs),
            forall|j: int| start <= j < i ==> is_digit(#[trigger] t[j]),
            forall|j: int| fs <= j < e ==> is_digit(#[trigger] t[j]),
            all_digits(sig),
            !big ==> acc == place_value(sig, k2 as int) && acc >= 0,
            big ==> place_value(sig, k2 as int) > i64::MAX && k2 > 0,
        decreases nd - k2,
    {
        let d = sig_digit(text, start, i, fs, e, k2 as usize);
        let nv: i128 = acc as i128 * 10 + d as i128;
        if nv > i64::MAX as i128 {
            big = true;
        } else {
            acc = nv as i64;
        }
        k2 = k2 + 1;
    }
    while k2 < cp && !big && acc != 0
        invariant
            0 <= k2,
            k2 == 0 || k2 <= cp,
            k2 >= nd || k2 >= cp || big,
            nd == sig.len(),
            all_digits(sig),
            !big ==> acc == place_value(sig, k2 as int) && acc >= 0,
            big ==> place_value(sig, k2 as int) > i64::MAX && k2 > 0,
            !big && k2 >= nd ==> acc >= k2 - nd,
        decreases cp - k2,
    {
        let nv: i128 = acc as i128 * 10;
        if nv > i64::MAX as i128 {
            big = true;
        } else {
            acc = nv as i64;
        }
        k2 = k2 + 1;
    }
    if big {
        proof {
            lemma_place_value_monotone(sig, k2 as int, cent);
        }
        return None;
    }
    let place: i64 = if k2 >= cp {
        acc
    } else {
        0
    };
    proof {
        if k2 < cp {
            lemma_place_value_stays_zero(sig, k2 as int, cent);
        } else if cp <= 0 {
            assert(place_value(sig, cent) == 0);
        }
        lemma_place_value_nonneg(sig, cent);
    }
    assert(place as int == place_value(sig, cent));
    let rd: i64 = if 0 <= cp && cp < nd as i128 {
        sig_digit(text, start, i, fs, e, cp as usize)
    } else {
        0
    };
    assert(rd == padded_digit(sig, cent));
    let up: i64 = if rd >= 5 {
        1
    } else {
        0
    };
    if place == i64::MAX && up == 1 {
        return None;
    }
    Some(place + up)
}

/// Reads a decimal number (see `is_number`) and rounds it to hundredths, half
/// away from zero. Fails with `MalformedRecord` where the text is no such
/// number or the rounded magnitude does not fit in an `i64`.
#[verifier::rlimit(100)]
pub fn parse_hundredths(text: &str) -> (r: Result<i64, RateError>)
    ensures
        r is Ok <==> (is_number(text@) && rounded_magnitude(text@) <= i64::MAX),
        r is Ok ==> r->Ok_0 as int == rounded_hundredths(text@),
        r is Err ==> r == Err::<i64, RateError>(RateError::MalformedRecord),
{
    let ghost t = text@;
    let len = text.unicode_len();
    let mut start: usize = 0;
    let mut negative = false;
    if len > 0 {
        let c = text.get_char(0);
        if c == '-' {
            negative = true;
            start = 1;
        } else if c == '+' {
            start = 1;
        }
    }
    let ghost b = t.skip(start as int);
    assert(start == sign_len(t));
    // Where the exponent marker stands, or the end.
    let mut e: usize = start;
    while e < len && !is_exp_marker(text.get_char(e))
        invariant
            start <= e <= len,
            len == t.len(),
            t == text@,
            b == t.skip(start as int),
            exp_from(b, 0) == exp_from(b, e - start),
        decreases len - e,
    {
        assert(b[e - start] == t[e as int]);
        e = e + 1;
    }
    assert(exp_from(b, 0) == e - start);
    let ghost mt = mantissa(t);
    assert(mt =~= t.subrange(start as int, e as int));
    // Integer digits.
    let mut i: usize = start;
    while i < e && digit_of(text.get_char(i)).is_some()
        invariant
            start <= i <= e,
            e <= len,
            len == t.len(),
            t == text@,
            mt == t.subrange(start as int, e as int),
            forall|k: int| start <= k < i ==> is_digit(#[trigger] t[k]),
            dot_from(mt, 0) == dot_from(mt, i - start),
        decreases e - i,
    {
        assert(mt[i - start] == t[i as int]);
        i = i + 1;
    }
    let mut fs: usize = e;
    if i < e {
        if text.get_char(i) != '.' {
            proof {
                assert(mt[i - start] == t[i as int]);
                lemma_dot_from_at_least(mt, i - start + 1);
                assert(int_digits(t)[i - start] == t[i as int]);
            }
            return Err(RateError::MalformedRecord);
        }
        assert(mt[i - start] == t[i as int]);
        fs = i + 1;
        let mut j: usize = fs;
        while j < e && digit_of(text.get_char(j)).is_some()
            invariant
                fs <= j <= e,
                e <= len,
                len == t.len(),
                t == text@,
                forall|k: int| fs <= k < j ==> is_digit(#[trigger] t[k]),
            decreases e - j,
        {
            j = j + 1;
        }
        if j < e {
            proof {
                assert(frac_digits(t) =~= t.subrange(fs as int, e as int));
                assert(frac_digits(t)[j - fs] == t[j as int]);
            }
            return Err(RateError::MalformedRecord);
        }
    }
    assert(int_digits(t) =~= t.subrange(start as int, i as int));
    assert(frac_digits(t) =~= t.subrange(fs as int, e as int));
    let ghost sig = significand(t);
    assert(sig == t.subrange(start as int, i as int) + t.subrange(fs as int, e as int));
    let nd: usize = (i - start) + (e - fs);
    if nd == 0 {
        return Err(RateError::MalformedRecord);
    }
    // Exponent.
    let mut ev: i128 = 0;
    let mut esat = false;
    let mut eneg = false;
    if e < len {
        let ghost es = exponent_text(t);
        assert(es =~= t.subrange(e + 1, len as int));
        let mut k: usize = e + 1;
        if k < len {
            let c = text.get_char(k);
            if c == '-' {
                eneg = true;
                k = k + 1;
            } else if c == '+' {
                k = k + 1;
            }
        }
        let ds = k;
        assert(exponent_digits(t) =~= t.subrange(ds as int, len as int));
        if ds == len {
            return Err(RateError::MalformedRecord);
        }
        while k < len && digit_of(text.get_char(k)).is_some()
            invariant
                ds <= k <= len,
                len == t.len(),
                t == text@,
                forall|j: int| ds <= j < k ==> is_digit(#[trigger] t[j]),
                !esat ==> ev == digits_value(t.subrange(ds as int, k as int)) && 0 <= ev <= EXP_CAP,
                esat ==> ev == EXP_CAP && digits_value(t.subrange(ds as int, k as int)) > EXP_CAP,
            decreases len - k,
        {
            let d = match digit_of(text.get_char(k)) {
                Some(d) => d,
                None => 0,
            };
            proof {
                let old_s = t.subrange(ds as int, k as int);
                let new_s = t.subrange(ds as int, k + 1);
                assert(new_s.drop_last() == old_s);
                assert(new_s.last() == t[k as int]);
                lemma_digits_value_nonneg(old_s);
            }
            if !esat {
                let next = ev * 10 + d as i128;
                if next > EXP_CAP {
                    esat = true;
                    ev = EXP_CAP;
                } else {
                    ev = next;
                }
            }
            k = k + 1;
        }
        if k < len {
            proof {
                assert(exponent_digits(t)[k - ds] == t[k as int]);
            }
            return Err(RateError::MalformedRecord);
        }
    } else {
        assert(exponent_digits(t) =~= Seq::<char>::empty());
    }
    assert(is_number(t));
    let ghost cent = cent_position(t);
    let cp: i128 = (i - start) as i128 + if eneg {
        -ev
    } else {
        ev
    } + 2;
    assert(!esat ==> cp == cent);
    assert(esat && !eneg ==> cent > cp && cp >= nd + 0x8000_0000_0000_0000i128);
    assert(nd == sig.len());
    assert(esat && eneg ==> cent < cp && cp < 0);
    let magnitude = match round_significand(text, start, i, fs, e, cp, Ghost(cent)) {
        Some(m) => m,
        None => {
            return Err(RateError::MalformedRecord);
        },
    };
    Ok(
        if negative {
            -magnitude
        } else {
            magnitude
        },
    )
}

/// A number with at most two decimals (fraction digits less exponent) is
/// already rounded: no digit past the cents exists, so rounding adds nothing
/// and the result is exactly its value in hundredths.
pub proof fn lemma_rounding_keeps_two_decimals(t: Seq<char>)
    requires
        is_number(t),
        frac_digits(t).len() - exponent_value(t) <= 2,
    ensures
        cent_position(t) >= significand(t).len(),
        rounded_magnitude(t) == place_value(significand(t), cent_position(t)),
{
}

/// What a CSV text holds: its records in order, each as its fields, or
/// nothing where it is no valid CSV.
pub uninterp spec fn csv_table(b: Seq<u8>) -> Option<Seq<Seq<Seq<char>>>>;

pub open spec fn table_view(t: Seq<Vec<String>>) -> Seq<Seq<Seq<char>>> {
    t.map_values(|row: Vec<String>| row@.map_values(|f: String| f@))
}

/// Relies on csv's `ReaderBuilder::from_reader` with `has_headers(false)` and
/// `Reader::records`: every record, header row included, as its fields; an
/// error for text that is no valid CSV. Both depend on the bytes alone.
#[verifier::external_body]
fn read_csv_records(bytes: &[u8]) -> (r: Option<Vec<Vec<String>>>)
    ensures
        match r {
            Some(t) => csv_table(bytes@) == Some(table_view(t@)),
            None => csv_table(bytes@) is None,
        },
{
    let mut reader = csv::ReaderBuilder::new().has_headers(false).from_reader(bytes);
    reader.records().map(|rec| rec.map(|fields| fields.iter().map(String::from).collect())).collect::<
        Result<Vec<Vec<String>>, csv::Error>,
    >().ok()
}

/// Position of the first field from position `k` on that is `name`, or -1.
pub open spec fn column_from(header: Seq<Seq<char>>, name: Seq<char>, k: int) -> int
    decreases header.len() - k,
{
    if k < 0 || k >= header.len() {
        -1
    } else if header[k] == name {
        k
    } else {
        column_from(header, name, k + 1)
    }
}

/// The observation in a row: the date in column `dc`, the value in column
/// `vc` rounded to hundredths; nothing where either is missing or the value is
/// no number whose hundredths fit in an `i64`.
pub open spec fn row_point(row: Seq<Seq<char>>, dc: int, vc: int) -> Option<(Seq<char>, i64)> {
    if 0 <= dc < row.len() && 0 <= vc < row.len() && is_number(row[vc]) && rounded_magnitude(
        row[vc],
    ) <= i64::MAX {
        Some((row[dc], rounded_hundredths(row[vc]) as i64))
    } else {
        None
    }
}

/// The observations in the rows `1..n` of a table, or nothing where one of
/// them fails.
pub open spec fn rows_points(t: Seq<Seq<Seq<char>>>, dc: int, vc: int, n: int) -> Option<
    Seq<(Seq<char>, i64)>,
>
    decreases n,
{
    if n <= 1 {
        Some(Seq::empty())
    } else {
        match rows_points(t, dc, vc, n - 1) {
            None => None,
            Some(p) => match row_point(t[n - 1], dc, vc) {
                None => None,
                Some(x) => Some(p.push(x)),
            },
        }
    }
}

/// The series in a table whose first row names the columns: the date comes
/// from the column "TIME", the value from the column "Value". A table with no
/// row after the header gives the empty series.
pub open spec fn table_series(t: Seq<Seq<Seq<char>>>) -> Option<Seq<(Seq<char>, i64)>> {
    if t.len() <= 1 {
        Some(Seq::empty())
    } else {
        let dc = column_from(t[0], "TIME"@, 0);
        let vc = column_from(t[0], "Value"@, 0);
        if dc < 0 || vc < 0 {
            None
        } else {
            rows_points(t, dc, vc, t.len() as int)
        }
    }
}

/// The series that a CSV text holds, or nothing where it holds none.
pub open spec fn csv_series(b: Seq<u8>) -> Option<Seq<(Seq<char>, i64)>> {
    match csv_table(b) {
        None => None,
        Some(t) => table_series(t),
    }
}

proof fn lemma_rows_fail_onward(t: Seq<Seq<Seq<char>>>, dc: int, vc: int, k: int, n: int)
    requires
        k <= n,
        rows_points(t, dc, vc, k) is None,
    ensures
        rows_points(t, dc, vc, n) is None,
    decreases n - k,
{
    if k < n {
        lemma_rows_fail_onward(t, dc, vc, k, n - 1);
    }
}

fn find_column(header: &Vec<String>, name: &String) -> (r: Option<usize>)
    ensures
        match r {
            Some(k) => column_from(header@.map_values(|f: String| f@), name@, 0) == k as int,
            None => column_from(header@.map_values(|f: String| f@), name@, 0) < 0,
        },
{
    let ghost h = header@.map_values(|f: String| f@);
    let mut k: usize = 0;
    while k < header.len()
        invariant
            k <= header@.len(),
            h == header@.map_values(|f: String| f@),
            column_from(h, name@, 0) == column_from(h, name@, k as int),
        decreases header@.len() - k,
    {
        if header[k] == *name {
            return Some(k);
        }
        k = k + 1;
    }
    None
}

/// The series in a table of records whose first row names the columns: the
/// date from the column "TIME", the value from the column "Value", rounded to
/// hundredths. Any malformed row fails the whole table with `MalformedRecord`.
pub fn series_from_table(table: &Vec<Vec<String>>) -> (r: Result<Vec<DataPoint>, RateError>)
    ensures
        match table_series(table_view(table@)) {
            None => r == Err::<Vec<DataPoint>, RateError>(RateError::MalformedRecord),
            Some(s) => r is Ok && r->Ok_0@.map_values(|d: DataPoint| d@) == s,
        },
{
    let ghost tv = table_view(table@);
    let mut data_points: Vec<DataPoint> = Vec::new();
    if table.len() <= 1 {
        return Ok(data_points);
    }
    let date_name = "TIME".to_owned();
    let value_name = "Value".to_owned();
    assert(tv[0] == table@[0]@.map_values(|f: String| f@));
    let dc = match find_column(&table[0], &date_name) {
        Some(k) => k,
        None => {
            return Err(RateError::MalformedRecord);
        },
    };
    let vc = match find_column(&table[0], &value_name) {
        Some(k) => k,
        None => {
            return Err(RateError::MalformedRecord);
        },
    };
    let n = table.len();
    let mut i: usize = 1;
    while i < n
        invariant
            1 <= i <= n,
            n == table@.len(),
            tv == table_view(table@),
            dc as int == column_from(tv[0], "TIME"@, 0),
            vc as int == column_from(tv[0], "Value"@, 0),
            rows_points(tv, dc as int, vc as int, i as int) == Some(
                data_points@.map_values(|d: DataPoint| d@),
            ),
        decreases n - i,
    {
        let row = &table[i];
        assert(tv[i as int] == row@.map_values(|f: String| f@));
        if dc >= row.len() || vc >= row.len() {
            proof {
                lemma_rows_fail_onward(tv, dc as int, vc as int, i + 1, n as int);
            }
            return Err(RateError::MalformedRecord);
        }
        let value = match parse_hundredths(row[vc].as_str()) {
            Ok(v) => v,
            Err(e) => {
                proof {
                    lemma_rows_fail_onward(tv, dc as int, vc as int, i + 1, n as int);
                }
                return Err(e);
            },
        };
        let ghost before = data_points@.map_values(|d: DataPoint| d@);
        data_points.push(DataPoint { date: row[dc].clone(), value });
        proof {
            assert(data_points@.map_values(|d: DataPoint| d@) == before.push(
                data_points@.last()@,
            ));
        }
        i = i + 1;
    }
    Ok(data_points)
}

/// Reads a series from CSV text (see `series_from_table`); text that is no
/// valid CSV is a `MalformedRecord`.
fn read_series(bytes: &[u8]) -> (r: Result<Vec<DataPoint>, RateError>)
    ensures
        match csv_series(bytes@) {
            None => r == Err::<Vec<DataPoint>, RateError>(RateError::MalformedRecord),
            Some(s) => r is Ok && r->Ok_0@.map_values(|d: DataPoint| d@) == s,
        },
{
    match read_csv_records(bytes) {
        Some(table) => series_from_table(&table),
        None => Err(RateError::MalformedRecord),
    }
}

/// Reads the inflation series from CSV text (see `read_series`).
pub fn read_inflation_data(bytes: &[u8]) -> (r: Result<Vec<DataPoint>, RateError>)
    ensures
        match csv_series(bytes@) {
            None => r == Err::<Vec<DataPoint>, RateError>(RateError::MalformedRecord),
            Some(s) => r is Ok && r->Ok_0@.map_values(|d: DataPoint| d@) == s,
        },
{
    read_series(bytes)
}

/// Reads the interest-rate series from CSV text (see `read_series`).
pub fn read_interest_rate_data(bytes: &[u8]) -> (r: Result<Vec<DataPoint>, RateError>)
    ensures
        match csv_series(bytes@) {
            None => r == Err::<Vec<DataPoint>, RateError>(RateError::MalformedRecord),
            Some(s) => r is Ok && r->Ok_0@.map_values(|d: DataPoint| d@) == s,
        },
{
    read_series(bytes)
}

} // verus!
