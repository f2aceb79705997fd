//! Turning one line of input into a station key and a reading in tenths.
use vstd::prelude::*;
use crate::record::MAX_TENTHS;

verus! {

/// The largest whole part that a reading may have.
pub const MAX_WHOLE: u64 = 2147483647;

/// Why a line was left out.
#[derive(Debug, PartialEq, Eq)]
pub enum ParseError {
    /// The line does not hold exactly one `;`; carries the line.
    MalformedLine(Vec<u8>),
    /// The text after the `;` is not a reading; carries that text.
    NumericFormat(Vec<u8>),
}

/// A parsed line: the station key and the reading in tenths.
#[derive(Debug, PartialEq, Eq)]
pub struct Reading {
    pub key: Vec<u8>,
    pub tenths: i64,
}

pub open spec fn is_digit(b: u8) -> bool {
    48 <= b <= 57
}

pub open spec fn all_digits(s: Seq<u8>) -> bool {
    forall|i: int| 0 <= i < s.len() ==> is_digit(#[trigger] s[i])
}

/// The number that a string of decimal digits spells.
pub open spec fn digits_value(s: Seq<u8>) -> int
    decreases s.len(),
{
    if s.len() == 0 {
        0
    } else {
        digits_value(s.drop_last()) * 10 + (s.last() - 48)
    }
}

/// `i` is the position of the only `;` of the line.
pub open spec fn separator_at(line: Seq<u8>, i: int) -> bool {
    &&& 0 <= i < line.len()
    &&& line[i] == 59
    &&& forall|j: int| 0 <= j < line.len() && j != i ==> line[j] != 59
}

pub open spec fn has_one_separator(line: Seq<u8>) -> bool {
    exists|i: int| separator_at(line, i)
}

pub open spec fn separator_index(line: Seq<u8>) -> int {
    choose|i: int| separator_at(line, i)
}

/// The key part of a line with one separator.
pub open spec fn key_text(line: Seq<u8>) -> Seq<u8> {
    line.take(separator_index(line))
}

/// The value part of a line with one separator.
pub open spec fn value_text(line: Seq<u8>) -> Seq<u8> {
    line.skip(separator_index(line) + 1)
}

pub open spec fn is_negative(v: Seq<u8>) -> bool {
    v.len() > 0 && v[0] == 45
}

/// The value text without its sign.
pub open spec fn magnitude_text(v: Seq<u8>) -> Seq<u8> {
    if is_negative(v) { v.drop_first() } else { v }
}

/// The whole part of an unsigned value text.
pub open spec fn whole_text(m: Seq<u8>) -> Seq<u8> {
    m.take(m.len() - 2)
}

/// `-?[0-9]+\.[0-9]`, with a whole part of at most `MAX_WHOLE`.
pub open spec fn valid_value(v: Seq<u8>) -> bool {
    let m = magnitude_text(v);
    &&& m.len() >= 3
    &&& m[m.len() - 2] == 46
    &&& is_digit(m.last())
    &&& all_digits(whole_text(m))
    &&& digits_value(whole_text(m)) <= MAX_WHOLE
}

/// The tenths that a valid value text stands for; the sign goes on the whole magnitude.
pub open spec fn value_tenths(v: Seq<u8>) -> int {
    let m = magnitude_text(v);
    let magnitude = digits_value(whole_text(m)) * 10 + (m.last() - 48);
    if is_negative(v) { -magnitude } else { magnitude }
}

/// The key and reading of a line, or `None` when the line is left out.
pub open spec fn line_reading(line: Seq<u8>) -> Option<(Seq<u8>, int)> {
    if has_one_separator(line) && valid_value(value_text(line)) {
        Some((key_text(line), value_tenths(value_text(line))))
    } else {
        None
    }
}

/// The digit value of a digit string is at least that of any of its prefixes.
pub proof fn lemma_digits_value_prefix(s: Seq<u8>, k: int)
    requires
        all_digits(s),
        0 <= k <= s.len(),
    ensures
        digits_value(s.take(k)) <= digits_value(s),
        0 <= digits_value(s.take(k)),
    decreases s.len(),
{
    if k == s.len() {
        assert(s.take(k) =~= s);
        lemma_digits_value_nonneg(s);
    } else {
        lemma_digits_value_prefix(s.drop_last(), k);
        assert(s.drop_last().take(k) =~= s.take(k));
    }
}

proof fn lemma_digits_value_nonneg(s: Seq<u8>)
    requires
        all_digits(s),
    ensures
        0 <= digits_value(s),
    decreases s.len(),
{
    if s.len() > 0 {
        lemma_digits_value_nonneg(s.drop_last());
    }
}

/// Copies `s[lo..hi]` into a new vector.
fn copy_range(s: &[u8], lo: usize, hi: usize) -> (r: Vec<u8>)
    requires
        lo <= hi <= s@.len(),
    ensures
        r@ == s@.subrange(lo as int, hi as int),
{
    let mut r: Vec<u8> = Vec::new();
    let mut i: usize = lo;
    while i < hi
        invariant
            lo <= i <= hi <= s@.len(),
            r@ == s@.subrange(lo as int, i as int),
        decreases hi - i,
    {
        r.push(s[i]);
        assert(r@ =~= s@.subrange(lo as int, i as int + 1));
        i = i + 1;
    }
    r
}

/// The number spelled by the digits `s[lo..hi]`, if they are all digits and it is at most
/// `MAX_WHOLE`.
fn parse_whole(s: &[u8], lo: usize, hi: usize) -> (r: Option<u64>)
    requires
        lo <= hi <= s@.len(),
    ensures
        r.is_some() == (all_digits(s@.subrange(lo as int, hi as int)) && digits_value(
            s@.subrange(lo as int, hi as int),
        ) <= MAX_WHOLE),
        r.is_some() ==> r.unwrap() == digits_value(s@.subrange(lo as int, hi as int)),
{
    let ghost whole = s@.subrange(lo as int, hi as int);
    let mut acc: u64 = 0;
    let mut i: usize = lo;
    assert(s@.subrange(lo as int, lo as int) =~= Seq::<u8>::empty());
    while i < hi
        invariant
            lo <= i <= hi <= s@.len(),
            whole == s@.subrange(lo as int, hi as int),
            all_digits(s@.subrange(lo as int, i as int)),
            acc == digits_value(s@.subrange(lo as int, i as int)),
            acc <= MAX_WHOLE,
        decreases hi - i,
    {
        let ghost next = s@.subrange(lo as int, i as int + 1);
        assert(next.drop_last() =~= s@.subrange(lo as int, i as int));
        assert(whole.take(i - lo) =~= s@.subrange(lo as int, i as int));
        assert(whole.take(i + 1 - lo) =~= next);
        let b = s[i];
        if !(48 <= b && b <= 57) {
            assert(!is_digit(whole[i - lo]));
            return None;
        }
        let v: u64 = acc * 10 + (b - 48) as u64;
        if v > MAX_WHOLE {
            proof {
                if all_digits(whole) {
                    lemma_digits_value_prefix(whole, i + 1 - lo);
                }
            }
            return None;
        }
        acc = v;
        i = i + 1;
    }
    assert(s@.subrange(lo as int, i as int) =~= whole);
    Some(acc)
}

/// Splits a line at its only `;` and reads the value after it as a signed decimal with
/// exactly one fractional digit, in tenths.
pub fn parse_line(line: &[u8]) -> (r: Result<Reading, ParseError>)
    ensures
        match r {
            Ok(reading) => line_reading(line@) == Some((reading.key@, reading.tenths as int)),
            Err(ParseError::MalformedLine(text)) => !has_one_separator(line@) && text@ == line@,
            Err(ParseError::NumericFormat(text)) => has_one_separator(line@) && !valid_value(
                value_text(line@),
            ) && text@ == value_text(line@),
        },
{
    let n = line.len();
    let mut sep: usize = 0;
    while sep < n && line[sep] != 59
        invariant
            sep <= n == line@.len(),
            forall|j: int| 0 <= j < sep ==> line@[j] != 59,
        decreases n - sep,
    {
        sep = sep + 1;
    }
    if sep == n {
        return Err(ParseError::MalformedLine(copy_range(line, 0, n)));
    }
    let mut k: usize = sep + 1;
    while k < n
        invariant
            sep < k <= n == line@.len(),
            line@[sep as int] == 59,
            forall|j: int| 0 <= j < sep ==> line@[j] != 59,
            forall|j: int| sep < j < k ==> line@[j] != 59,
        decreases n - k,
    {
        if line[k] == 59 {
            assert(!has_one_separator(line@)) by {
                if exists|i: int| separator_at(line@, i) {
                    let i = choose|i: int| separator_at(line@, i);
                    assert(line@[sep as int] == 59 && line@[k as int] == 59);
                }
            }
            return Err(ParseError::MalformedLine(copy_range(line, 0, n)));
        }
        k = k + 1;
    }
    assert(separator_at(line@, sep as int));
    assert(separator_index(line@) == sep);
    let ghost v = line@.skip(sep + 1);
    let start = sep + 1;
    let negative = start < n && line[start] == 45;
    let mstart = if negative { start + 1 } else { start };
    let ghost m = magnitude_text(v);
    assert(m =~= line@.subrange(mstart as int, n as int));
    if n - mstart < 3 || line[n - 2] != 46 || !(48 <= line[n - 1] && line[n - 1] <= 57) {
        return Err(ParseError::NumericFormat(copy_range(line, start, n)));
    }
    assert(whole_text(m) =~= line@.subrange(mstart as int, n - 2));
    match parse_whole(line, mstart, n - 2) {
        None => Err(ParseError::NumericFormat(copy_range(line, start, n))),
        Some(whole) => {
            let magnitude: i64 = (whole * 10 + (line[n - 1] - 48) as u64) as i64;
            let tenths: i64 = if negative { -magnitude } else { magnitude };
            let key = copy_range(line, 0, sep);
            Ok(Reading { key, tenths })
        },
    }
}

/// Every reading that a line yields is within `MAX_TENTHS`.
pub proof fn lemma_reading_in_range(line: Seq<u8>)
    requires
        line_reading(line) is Some,
    ensures
        -MAX_TENTHS <= line_reading(line).unwrap().1 <= MAX_TENTHS,
{
    let v = value_text(line);
    let m = magnitude_text(v);
    lemma_digits_value_nonneg(whole_text(m));
}

} // verus!
