//! Rendering report entries as `key=min/mean/max` inside `{ }`.
use vstd::prelude::*;

verus! {

/// One line of the report: a station's key, minimum, rounded mean and maximum, in tenths.
#[derive(Debug, PartialEq, Eq)]
pub struct ReportEntry {
    pub key: Vec<u8>,
    pub min: i64,
    pub mean: i64,
    pub max: i64,
}

/// The decimal digits of `n`, without leading zeros.
pub open spec fn digits_text(n: nat) -> Seq<u8>
    decreases n,
{
    if n < 10 {
        seq![(48 + n) as u8]
    } else {
        digits_text(n / 10) + seq![(48 + n % 10) as u8]
    }
}

pub open spec fn abs(v: int) -> nat {
    if v < 0 { (-v) as nat } else { v as nat }
}

/// A value in tenths as `-?<whole>.<digit>`; no sign for zero or positive values.
pub open spec fn tenths_text(v: int) -> Seq<u8> {
    (if v < 0 { seq![45u8] } else { Seq::<u8>::empty() }) + digits_text(abs(v) / 10) + seq![
        46u8,
        (48 + abs(v) % 10) as u8,
    ]
}

/// `key=min/mean/max`.
pub open spec fn entry_text(key: Seq<u8>, min: int, mean: int, max: int) -> Seq<u8> {
    key + seq![61u8] + tenths_text(min) + seq![47u8] + tenths_text(mean) + seq![47u8]
        + tenths_text(max)
}

/// The texts separated by `", "`.
pub open spec fn joined(texts: Seq<Seq<u8>>) -> Seq<u8>
    decreases texts.len(),
{
    if texts.len() == 0 {
        Seq::empty()
    } else if texts.len() == 1 {
        texts[0]
    } else {
        joined(texts.drop_last()) + seq![44u8, 32u8] + texts.last()
    }
}

/// The texts separated by `", "` inside `{ }`.
pub open spec fn braced(texts: Seq<Seq<u8>>) -> Seq<u8> {
    seq![123u8] + joined(texts) + seq![125u8]
}

/// The text of each entry.
pub open spec fn entry_texts(entries: Seq<ReportEntry>) -> Seq<Seq<u8>> {
    entries.map_values(|e: ReportEntry| entry_text(e.key@, e.min as int, e.mean as int, e.max as int))
}

/// Appends the decimal digits of `n`.
fn push_digits(out: &mut Vec<u8>, n: u64)
    ensures
        final(out)@ == old(out)@ + digits_text(n as nat),
    decreases n,
{
    if n >= 10 {
        push_digits(out, n / 10);
    }
    out.push(48 + (n % 10) as u8);
    assert(final(out)@ =~= old(out)@ + digits_text(n as nat));
}

/// Appends a value in tenths as `-?<whole>.<digit>`.
fn push_tenths(out: &mut Vec<u8>, v: i64)
    ensures
        final(out)@ == old(out)@ + tenths_text(v as int),
{
    let magnitude: u64 = if v < 0 { (-(v + 1)) as u64 + 1 } else { v as u64 };
    assert(magnitude == abs(v as int));
    let ghost start = out@;
    if v < 0 {
        out.push(45);
    }
    push_digits(out, magnitude / 10);
    out.push(46);
    out.push(48 + (magnitude % 10) as u8);
    assert(out@ =~= start + tenths_text(v as int));
}

/// The text `-?<whole>.<digit>` of a value in tenths.
pub fn format_tenths(v: i64) -> (r: Vec<u8>)
    ensures
        r@ == tenths_text(v as int),
{
    let mut out: Vec<u8> = Vec::new();
    push_tenths(&mut out, v);
    assert(out@ =~= tenths_text(v as int));
    out
}

/// Appends `key=min/mean/max`.
fn push_entry(out: &mut Vec<u8>, e: &ReportEntry)
    ensures
        final(out)@ == old(out)@ + entry_text(e.key@, e.min as int, e.mean as int, e.max as int),
{
    let ghost start = out@;
    let mut i: usize = 0;
    while i < e.key.len()
        invariant
            i <= e.key@.len(),
            out@ == start + e.key@.take(i as int),
        decreases e.key@.len() - i,
    {
        out.push(e.key[i]);
        assert(e.key@.take(i as int + 1) =~= e.key@.take(i as int).push(e.key@[i as int]));
        i = i + 1;
    }
    assert(e.key@.take(i as int) =~= e.key@);
    out.push(61);
    push_tenths(out, e.min);
    out.push(47);
    push_tenths(out, e.mean);
    out.push(47);
    push_tenths(out, e.max);
    assert(out@ =~= start + entry_text(e.key@, e.min as int, e.mean as int, e.max as int));
}

/// The text `key=min/mean/max` of one entry.
pub fn format_entry(e: &ReportEntry) -> (r: Vec<u8>)
    ensures
        r@ == entry_text(e.key@, e.min as int, e.mean as int, e.max as int),
{
    let mut out: Vec<u8> = Vec::new();
    push_entry(&mut out, e);
    assert(out@ =~= entry_text(e.key@, e.min as int, e.mean as int, e.max as int));
    out
}

/// The whole report: the entries' texts, separated by `", "`, inside `{ }`.
pub fn format_report(entries: &[ReportEntry]) -> (r: Vec<u8>)
    ensures
        r@ == braced(entry_texts(entries@)),
{
    let mut out: Vec<u8> = Vec::new();
    out.push(123);
    let mut i: usize = 0;
    while i < entries.len()
        invariant
            i <= entries@.len(),
            out@ == seq![123u8] + joined(entry_texts(entries@.take(i as int))),
        decreases entries@.len() - i,
    {
        let ghost before = entry_texts(entries@.take(i as int));
        let ghost after = entry_texts(entries@.take(i as int + 1));
        assert(after.drop_last() =~= before);
        if i > 0 {
            out.push(44);
            out.push(32);
        }
        push_entry(&mut out, &entries[i]);
        assert(out@ =~= seq![123u8] + joined(after));
        i = i + 1;
    }
    assert(entries@.take(i as int) =~= entries@);
    out.push(125);
    assert(out@ =~= braced(entry_texts(entries@)));
    out
}

} // verus!
