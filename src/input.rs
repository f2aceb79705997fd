//! Taking a whole input of newline-separated lines into an aggregator.
use vstd::prelude::*;
use crate::aggregate::{add_reading, Aggregator, Tallies};
use crate::parse::{
    has_one_separator, lemma_reading_in_range, line_reading, parse_line, valid_value, value_text,
    ParseError,
};
use crate::record::Tally;

verus! {

/// `i` is the position of the first newline of `s`.
pub open spec fn first_newline(s: Seq<u8>, i: int) -> bool {
    &&& 0 <= i < s.len()
    &&& s[i] == 10
    &&& forall|j: int| 0 <= j < i ==> s[j] != 10
}

/// A line without its carriage return, if it ends in one.
pub open spec fn strip_cr(l: Seq<u8>) -> Seq<u8> {
    if l.len() > 0 && l.last() == 13 { l.drop_last() } else { l }
}

/// The lines of an input: the pieces between newlines, each without a final carriage return;
/// a newline at the very end starts no further line.
pub open spec fn lines_of(s: Seq<u8>) -> Seq<Seq<u8>>
    decreases s.len(),
{
    if s.len() == 0 {
        Seq::empty()
    } else if exists|i: int| first_newline(s, i) {
        let i = choose|i: int| first_newline(s, i);
        seq![strip_cr(s.take(i))] + lines_of(s.skip(i + 1))
    } else {
        seq![strip_cr(s)]
    }
}

/// The statistics after one more line: a line that yields no reading changes nothing.
pub open spec fn add_line(m: Tallies, line: Seq<u8>) -> Tallies {
    match line_reading(line) {
        Some(r) => add_reading(m, r.0, r.1),
        None => m,
    }
}

/// The statistics after the lines, in order.
pub open spec fn feed(m: Tallies, lines: Seq<Seq<u8>>) -> Tallies
    decreases lines.len(),
{
    if lines.len() == 0 {
        m
    } else {
        feed(add_line(m, lines[0]), lines.drop_first())
    }
}

/// The statistics of a sequence of lines.
pub open spec fn tally_lines(lines: Seq<Seq<u8>>) -> Tallies {
    feed(Map::<Seq<u8>, Tally>::empty(), lines)
}

/// The lines that yield no reading, in order.
pub open spec fn rejected(lines: Seq<Seq<u8>>) -> Seq<Seq<u8>>
    decreases lines.len(),
{
    if lines.len() == 0 {
        Seq::empty()
    } else if line_reading(lines[0]) is Some {
        rejected(lines.drop_first())
    } else {
        seq![lines[0]] + rejected(lines.drop_first())
    }
}

/// `e` is the error that `line` is left out with.
pub open spec fn error_for(e: ParseError, line: Seq<u8>) -> bool {
    match e {
        ParseError::MalformedLine(text) => !has_one_separator(line) && text@ == line,
        ParseError::NumericFormat(text) => has_one_separator(line) && !valid_value(value_text(line))
            && text@ == value_text(line),
    }
}

impl Aggregator {
    /// Takes in every line of `input`; returns the errors of the lines left out, in order.
    pub fn ingest(&mut self, input: &[u8]) -> (errors: Vec<ParseError>)
        requires
            old(self).wf(),
            old(self).total() + input@.len() <= u64::MAX,
        ensures
            final(self).wf(),
            final(self)@ == feed(old(self)@, lines_of(input@)),
            final(self).total() <= old(self).total() + input@.len(),
            errors@.len() == rejected(lines_of(input@)).len(),
            forall|j: int|
                0 <= j < errors@.len() ==> error_for(#[trigger] errors@[j], rejected(lines_of(input@))[j]),
    {
        let ghost start = *self;
        let ghost all = rejected(lines_of(input@));
        let n = input.len();
        let mut errors: Vec<ParseError> = Vec::new();
        let mut pos: usize = 0;
        assert(input@.skip(0) =~= input@);
        while pos < n
            invariant
                n == input@.len(),
                pos <= n,
                self.wf(),
                start.total() + n <= u64::MAX,
                self.total() <= start.total() + pos,
                feed(self@, lines_of(input@.skip(pos as int))) == feed(start@, lines_of(input@)),
                all == rejected(lines_of(input@)),
                errors@.len() <= all.len(),
                all.skip(errors@.len() as int) == rejected(lines_of(input@.skip(pos as int))),
                forall|j: int| 0 <= j < errors@.len() ==> error_for(#[trigger] errors@[j], all[j]),
            decreases n - pos,
        {
            let mut e: usize = pos;
            while e < n && input[e] != 10
                invariant
                    n == input@.len(),
                    pos <= e <= n,
                    forall|j: int| pos <= j < e ==> input@[j] != 10,
                decreases n - e,
            {
                e = e + 1;
            }
            let mut le: usize = e;
            if le > pos && input[le - 1] == 13 {
                le = le - 1;
            }
            let line = &input[pos..le];
            let ghost rest = input@.skip(pos as int);
            let ghost next: Seq<Seq<u8>>;
            proof {
                assert(rest.take(e - pos) =~= input@.subrange(pos as int, e as int));
                assert(line@ == strip_cr(rest.take(e - pos))) by {
                    if le < e {
                        assert(line@ =~= rest.take(e - pos).drop_last());
                    } else {
                        assert(line@ =~= rest.take(e - pos));
                    }
                }
                if e < n {
                    assert(first_newline(rest, e - pos));
                    let c = choose|c: int| first_newline(rest, c);
                    assert(c == e - pos);
                    assert(rest.skip(e - pos + 1) =~= input@.skip(e + 1));
                    next = lines_of(input@.skip(e + 1));
                } else {
                    assert(!exists|c: int| first_newline(rest, c));
                    assert(rest.take(e - pos) =~= rest);
                    assert(input@.skip(n as int) =~= Seq::<u8>::empty());
                    next = Seq::empty();
                }
                assert(lines_of(rest) =~= seq![line@] + next);
                assert(lines_of(rest).drop_first() =~= next);
            }
            match parse_line(line) {
                Ok(reading) => {
                    proof {
                        lemma_reading_in_range(line@);
                    }
                    self.observe(reading.key, reading.tenths);
                },
                Err(err) => {
                    proof {
                        assert(all.skip(errors@.len() as int)[0] == line@);
                        assert(all.skip(errors@.len() as int + 1) =~= all.skip(
                            errors@.len() as int,
                        ).drop_first());
                    }
                    errors.push(err);
                },
            }
            pos = if e < n { e + 1 } else { n };
            proof {
                if e >= n {
                    assert(input@.skip(pos as int) =~= Seq::<u8>::empty());
                }
            }
        }
        assert(input@.skip(pos as int) =~= Seq::<u8>::empty());
        assert(all.skip(errors@.len() as int).len() == 0);
        errors
    }
}

} // verus!
