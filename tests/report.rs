use onebrc::{
    format_entry, format_report, format_tenths, parse_line, summarize, Aggregator, ParseError,
    ReportEntry, StationRecord,
};

fn text(b: Vec<u8>) -> String {
    String::from_utf8(b).unwrap()
}

fn report_of(input: &str) -> String {
    text(summarize(input.as_bytes()))
}

#[test]
fn two_stations_scenario() {
    assert_eq!(report_of("A;1.0\nB;-2.5\nA;3.0\n"), "{A=1.0/2.0/3.0, B=-2.5/-2.5/-2.5}");
    let mut agg = Aggregator::new();
    let errors = agg.ingest(b"A;1.0\nB;-2.5\nA;3.0\n");
    assert!(errors.is_empty());
    assert_eq!(agg.len(), 2);
    assert_eq!(agg.get(b"A"), Some(StationRecord { min: 10, max: 30, sum: 40, count: 2 }));
    assert_eq!(agg.get(b"B"), Some(StationRecord { min: -25, max: -25, sum: -25, count: 1 }));
    assert_eq!(agg.get(b"C"), None);
    let rows = agg.drain();
    assert_eq!(
        rows,
        vec![
            ReportEntry { key: b"A".to_vec(), min: 10, mean: 20, max: 30 },
            ReportEntry { key: b"B".to_vec(), min: -25, mean: -25, max: -25 },
        ]
    );
}

#[test]
fn non_numeric_value_is_skipped() {
    assert_eq!(report_of("A;1.0\nC;notanumber\nB;2.0\n"), "{A=1.0/1.0/1.0, B=2.0/2.0/2.0}");
    let mut agg = Aggregator::new();
    let errors = agg.ingest(b"A;1.0\nC;notanumber\nB;2.0\n");
    assert_eq!(errors, vec![ParseError::NumericFormat(b"notanumber".to_vec())]);
    assert_eq!(agg.len(), 2);
}

#[test]
fn line_without_separator_is_skipped() {
    assert_eq!(report_of("justtext\nA;1.0\n"), "{A=1.0/1.0/1.0}");
    let mut agg = Aggregator::new();
    let errors = agg.ingest(b"justtext\nA;1.0\nx;1.0;2.0\n");
    assert_eq!(
        errors,
        vec![
            ParseError::MalformedLine(b"justtext".to_vec()),
            ParseError::MalformedLine(b"x;1.0;2.0".to_vec()),
        ]
    );
}

#[test]
fn mean_rounds_half_away_from_zero() {
    let up = StationRecord { min: 0, max: 5, sum: 25, count: 10 };
    assert_eq!(up.mean(), 3);
    let down = StationRecord { min: -5, max: 0, sum: -25, count: 10 };
    assert_eq!(down.mean(), -3);
    let below_half = StationRecord { min: 0, max: 5, sum: 24, count: 10 };
    assert_eq!(below_half.mean(), 2);
    let neg_below_half = StationRecord { min: -5, max: 0, sum: -24, count: 10 };
    assert_eq!(neg_below_half.mean(), -2);
    let odd = StationRecord { min: 1, max: 2, sum: 3, count: 2 };
    assert_eq!(odd.mean(), 2);
    assert_eq!(report_of("K;0.1\nK;0.2\n"), "{K=0.1/0.2/0.2}");
    assert_eq!(report_of("K;-0.1\nK;-0.2\n"), "{K=-0.2/-0.2/-0.1}");
}

#[test]
fn mean_lies_between_min_and_max() {
    let mut r = StationRecord::new(-7);
    for v in [3i64, 12, -1, 0, 5, 99] {
        r.update(v);
    }
    let m = r.mean();
    assert_eq!((r.min, r.max, r.sum, r.count), (-7, 99, 111, 7));
    assert_eq!(m, 16);
    assert!(r.min <= m && m <= r.max);
}

#[test]
fn keys_come_out_in_byte_order_without_duplicates() {
    assert_eq!(
        report_of("b;1.0\nB;2.0\na;3.0\nA;4.0\nab;5.0\nb;1.0\n"),
        "{A=4.0/4.0/4.0, B=2.0/2.0/2.0, a=3.0/3.0/3.0, ab=5.0/5.0/5.0, b=1.0/1.0/1.0}"
    );
}

#[test]
fn reordering_lines_keeps_the_report() {
    let a = report_of("X;1.5\nY;-3.2\nX;-0.4\nZ;10.0\nY;7.7\n");
    let b = report_of("Y;7.7\nZ;10.0\nX;-0.4\nY;-3.2\nX;1.5\n");
    assert_eq!(a, b);
    assert_eq!(a, "{X=-0.4/0.6/1.5, Y=-3.2/2.3/7.7, Z=10.0/10.0/10.0}");
}

#[test]
fn merging_partial_aggregates_matches_whole_input() {
    let whole = b"X;1.5\nY;-3.2\nX;-0.4\nZ;10.0\nY;7.7\n";
    let mut first = Aggregator::new();
    first.ingest(b"X;1.5\nY;-3.2\n");
    let mut second = Aggregator::new();
    second.ingest(b"X;-0.4\nZ;10.0\nY;7.7\n");
    first.merge(&second);
    let mut all = Aggregator::new();
    all.ingest(whole);
    assert_eq!(first.drain(), all.drain());
    assert_eq!(text(format_report(&first.drain())), text(summarize(whole)));
}

#[test]
fn formatting_twice_gives_the_same_text() {
    let e = ReportEntry { key: b"Hamburg".to_vec(), min: -123, mean: 0, max: 5 };
    let once = format_entry(&e);
    let twice = format_entry(&e);
    assert_eq!(once, twice);
    assert_eq!(text(once), "Hamburg=-12.3/0.0/0.5");
}

#[test]
fn tenths_formatting() {
    assert_eq!(text(format_tenths(0)), "0.0");
    assert_eq!(text(format_tenths(-5)), "-0.5");
    assert_eq!(text(format_tenths(5)), "0.5");
    assert_eq!(text(format_tenths(123)), "12.3");
    assert_eq!(text(format_tenths(-1230)), "-123.0");
    assert_eq!(text(format_tenths(i64::MIN)), "-922337203685477580.8");
}

#[test]
fn report_of_empty_input() {
    assert_eq!(report_of(""), "{}");
    assert_eq!(text(format_report(&[])), "{}");
}

#[test]
fn carriage_returns_are_stripped() {
    assert_eq!(report_of("A;1.0\r\nA;2.0\r\n"), "{A=1.0/1.5/2.0}");
    assert_eq!(report_of("A;1.0\nA;2.0"), "{A=1.0/1.5/2.0}");
}

#[test]
fn parse_valid_lines() {
    let r = parse_line(b"Oslo;-0.5").unwrap();
    assert_eq!(r.key, b"Oslo".to_vec());
    assert_eq!(r.tenths, -5);
    assert_eq!(parse_line(b"A;12.3").unwrap().tenths, 123);
    assert_eq!(parse_line(b"A;-12.3").unwrap().tenths, -123);
    assert_eq!(parse_line(b"A;007.0").unwrap().tenths, 70);
    assert_eq!(parse_line(b";1.0").unwrap().key, Vec::<u8>::new());
    assert_eq!(parse_line(b"A;2147483647.9").unwrap().tenths, 21474836479);
}

#[test]
fn parse_rejects_bad_values() {
    for v in ["1.25", "1.", ".5", "+1.0", "--1.0", "1", "-", "", "1.0.0", "1,0", "2147483648.0", "a.0"] {
        let line = format!("A;{}", v);
        assert_eq!(
            parse_line(line.as_bytes()),
            Err(ParseError::NumericFormat(v.as_bytes().to_vec())),
            "value {:?}",
            v
        );
    }
}

#[test]
fn parse_rejects_separator_count() {
    assert_eq!(parse_line(b"justtext"), Err(ParseError::MalformedLine(b"justtext".to_vec())));
    assert_eq!(parse_line(b"a;1.0;2.0"), Err(ParseError::MalformedLine(b"a;1.0;2.0".to_vec())));
    assert_eq!(parse_line(b""), Err(ParseError::MalformedLine(Vec::new())));
}

#[test]
fn record_merge_combines_statistics() {
    let mut a = StationRecord::new(10);
    a.update(-20);
    let mut b = StationRecord::new(35);
    b.update(5);
    a.merge(&b);
    assert_eq!(a, StationRecord { min: -20, max: 35, sum: 30, count: 4 });
    assert_eq!(a.mean(), 8);
}
