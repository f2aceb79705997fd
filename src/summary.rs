//! The report of a whole input, and the laws that make it independent of how the input is
//! ordered or split.
use vstd::prelude::*;
use crate::aggregate::{add_reading, merge_tallies, report_rows, Aggregator, Tallies};
use crate::format::{braced, entry_text, entry_texts, format_report};
use crate::input::{add_line, feed, lines_of, tally_lines};
use crate::record::{
    lemma_combine_wf, lemma_mean_within_bounds, rounded_mean, single, tally_wf, Tally,
};

verus! {

broadcast use vstd::seq_lib::group_to_multiset_ensures;

/// The report text of a set of station statistics.
pub open spec fn report_text(m: Tallies) -> Seq<u8> {
    braced(
        report_rows(m).map_values(
            |row: (Seq<u8>, int, int, int)| entry_text(row.0, row.1, row.2, row.3),
        ),
    )
}

/// The report of every valid line of `input`.
pub fn summarize(input: &[u8]) -> (r: Vec<u8>)
    ensures
        r@ == report_text(tally_lines(lines_of(input@))),
{
    let n = input.len();
    assert(n <= u64::MAX);
    let mut agg = Aggregator::new();
    let _ = agg.ingest(input);
    let rows = agg.drain();
    let r = format_report(rows.as_slice());
    proof {
        let rs = report_rows(agg@);
        assert(rows@.len() == rs.len());
        assert forall|i: int| 0 <= i < rows@.len() implies #[trigger] entry_texts(rows@)[i] == entry_text(
            rs[i].0,
            rs[i].1,
            rs[i].2,
            rs[i].3,
        ) by {
            assert(rows@.map_values(|e: crate::format::ReportEntry| crate::aggregate::row_view(e))[i]
                == rs[i]);
        }
        assert(entry_texts(rows@) =~= rs.map_values(
            |row: (Seq<u8>, int, int, int)| entry_text(row.0, row.1, row.2, row.3),
        ));
    }
    r
}

/// Merging is commutative.
pub proof fn lemma_merge_commutative(a: Tallies, b: Tallies)
    ensures
        merge_tallies(a, b) == merge_tallies(b, a),
{
    assert(merge_tallies(a, b) =~= merge_tallies(b, a));
}

/// Merging is associative.
pub proof fn lemma_merge_associative(a: Tallies, b: Tallies, c: Tallies)
    ensures
        merge_tallies(merge_tallies(a, b), c) == merge_tallies(a, merge_tallies(b, c)),
{
    assert(merge_tallies(merge_tallies(a, b), c) =~= merge_tallies(a, merge_tallies(b, c)));
}

proof fn lemma_merge_empty(a: Tallies)
    ensures
        merge_tallies(a, Map::empty()) == a,
        merge_tallies(Map::empty(), a) == a,
{
    assert(merge_tallies(a, Map::empty()) =~= a);
    assert(merge_tallies(Map::empty(), a) =~= a);
}

/// One more line is a merge with the statistics of that line alone.
proof fn lemma_add_line_is_merge(m: Tallies, line: Seq<u8>)
    ensures
        add_line(m, line) == merge_tallies(m, add_line(Map::empty(), line)),
{
    let e = Map::<Seq<u8>, Tally>::empty();
    match crate::parse::line_reading(line) {
        Some(r) => {
            assert(add_reading(e, r.0, r.1) =~= e.insert(r.0, single(r.1)));
            assert(add_line(m, line) =~= merge_tallies(m, add_line(e, line)));
        },
        None => {
            lemma_merge_empty(m);
        },
    }
}

/// Feeding lines into statistics is merging with the statistics of those lines.
proof fn lemma_feed_is_merge(m: Tallies, lines: Seq<Seq<u8>>)
    ensures
        feed(m, lines) == merge_tallies(m, tally_lines(lines)),
    decreases lines.len(),
{
    let e = Map::<Seq<u8>, Tally>::empty();
    if lines.len() == 0 {
        lemma_merge_empty(m);
    } else {
        let x = lines[0];
        let rest = lines.drop_first();
        lemma_feed_is_merge(add_line(m, x), rest);
        lemma_feed_is_merge(add_line(e, x), rest);
        lemma_add_line_is_merge(m, x);
        lemma_merge_associative(m, add_line(e, x), tally_lines(rest));
    }
}

/// The statistics of a concatenation are the merged statistics of its parts, wherever the
/// input is split between lines.
pub proof fn lemma_split_merge(a: Seq<Seq<u8>>, b: Seq<Seq<u8>>)
    ensures
        tally_lines(a + b) == merge_tallies(tally_lines(a), tally_lines(b)),
        report_text(tally_lines(a + b)) == report_text(
            merge_tallies(tally_lines(a), tally_lines(b)),
        ),
{
    lemma_feed_concat(Map::empty(), a, b);
    lemma_feed_is_merge(tally_lines(a), b);
}

proof fn lemma_feed_concat(m: Tallies, a: Seq<Seq<u8>>, b: Seq<Seq<u8>>)
    ensures
        feed(m, a + b) == feed(feed(m, a), b),
    decreases a.len(),
{
    if a.len() == 0 {
        assert(a + b =~= b);
    } else {
        assert((a + b).drop_first() =~= a.drop_first() + b);
        assert((a + b)[0] == a[0]);
        lemma_feed_concat(add_line(m, a[0]), a.drop_first(), b);
    }
}

/// The report does not depend on the order of the lines: any reordering of the same lines
/// gives the same statistics and the same text.
pub proof fn lemma_reorder_invariant(a: Seq<Seq<u8>>, b: Seq<Seq<u8>>)
    requires
        a.to_multiset() == b.to_multiset(),
    ensures
        tally_lines(a) == tally_lines(b),
        report_text(tally_lines(a)) == report_text(tally_lines(b)),
    decreases a.len(),
{
    assert(a.to_multiset().len() == a.len());
    assert(b.to_multiset().len() == b.len());
    if a.len() == 0 {
        assert(b.len() == 0);
        assert(a =~= b);
    } else {
        let x = a[0];
        assert(a.to_multiset().count(x) > 0) by {
            assert(a[0] == x);
            assert(a.contains(x));
        }
        assert(b.contains(x));
        let j = choose|j: int| 0 <= j < b.len() && b[j] == x;
        let a1 = a.remove(0);
        let b1 = b.remove(j);
        assert(a1.to_multiset() =~= a.to_multiset().remove(x));
        assert(b1.to_multiset() =~= b.to_multiset().remove(b[j]));
        assert(a1.to_multiset() == b1.to_multiset());
        lemma_reorder_invariant(a1, b1);
        let one = seq![x];
        assert(a =~= one + a1);
        lemma_split_merge(one, a1);
        let p = b.take(j);
        let q = b.skip(j + 1);
        assert(b =~= (p + one) + q);
        assert(b1 =~= p + q);
        lemma_split_merge(p + one, q);
        lemma_split_merge(p, one);
        lemma_split_merge(p, q);
        let tp = tally_lines(p);
        let tx = tally_lines(one);
        let tq = tally_lines(q);
        lemma_merge_commutative(tp, tx);
        lemma_merge_associative(tx, tp, tq);
        lemma_merge_associative(tp, tx, tq);
    }
}

/// Every station of `m` has the statistics of some non-empty series.
pub open spec fn all_wf(m: Tallies) -> bool {
    forall|k: Seq<u8>| #[trigger] m.contains_key(k) ==> tally_wf(m[k])
}

proof fn lemma_feed_wf(m: Tallies, lines: Seq<Seq<u8>>)
    requires
        all_wf(m),
    ensures
        all_wf(feed(m, lines)),
    decreases lines.len(),
{
    if lines.len() > 0 {
        let m2 = add_line(m, lines[0]);
        match crate::parse::line_reading(lines[0]) {
            Some(r) => {
                if m.contains_key(r.0) {
                    lemma_combine_wf(m[r.0], single(r.1));
                }
                assert(all_wf(m2));
            },
            None => {},
        }
        lemma_feed_wf(m2, lines.drop_first());
    }
}

/// For every station of every sequence of lines, the rounded mean lies between the minimum
/// and the maximum.
pub proof fn lemma_lines_mean_within_bounds(lines: Seq<Seq<u8>>, k: Seq<u8>)
    requires
        tally_lines(lines).contains_key(k),
    ensures
        tally_lines(lines)[k].min <= rounded_mean(tally_lines(lines)[k].sum, tally_lines(lines)[k].count)
            <= tally_lines(lines)[k].max,
{
    lemma_feed_wf(Map::empty(), lines);
    lemma_mean_within_bounds(tally_lines(lines)[k]);
}

} // verus!
