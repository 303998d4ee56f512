use measurements::aggregate::process_chunk;
use measurements::chunk::chunk_data;
use measurements::merge::merge_and_sort;
use measurements::parse::ParseError;
use measurements::parse::parse_number;
use measurements::pipeline::summarize;
use measurements::report::render_report;
use measurements::stat::Stat;
use measurements::table::Table;

fn report_of(input: &[u8], parts: usize) -> Vec<u8> {
    let ranges = chunk_data(input, parts, b'\n');
    let mut tables: Vec<Table> = Vec::new();
    for (lo, hi) in ranges {
        let (_, table) = process_chunk(&input[lo..hi]).expect("chunk must parse");
        tables.push(table);
    }
    let merged = merge_and_sort(&tables);
    render_report(&merged)
}

#[test]
fn decode_canonical_values() {
    assert_eq!(parse_number(b"0.0"), Ok(0));
    assert_eq!(parse_number(b"-0.0"), Ok(0));
    assert_eq!(parse_number(b"99.9"), Ok(999));
    assert_eq!(parse_number(b"-99.9"), Ok(-999));
    assert_eq!(parse_number(b"5.0"), Ok(50));
    assert_eq!(parse_number(b"41.9"), Ok(419));
    assert_eq!(parse_number(b"-3.2"), Ok(-32));
}

#[test]
fn decode_rejects_malformed() {
    assert_eq!(parse_number(b""), Err(ParseError::BadNumber));
    assert_eq!(parse_number(b"-"), Err(ParseError::BadNumber));
    assert_eq!(parse_number(b"4"), Err(ParseError::BadNumber));
    assert_eq!(parse_number(b"41.23"), Err(ParseError::BadNumber));
    assert_eq!(parse_number(b"4.23"), Err(ParseError::BadNumber));
    assert_eq!(parse_number(b"123.4"), Err(ParseError::BadNumber));
    assert_eq!(parse_number(b"12."), Err(ParseError::BadNumber));
    assert_eq!(parse_number(b".5"), Err(ParseError::BadNumber));
    assert_eq!(parse_number(b"+1.0"), Err(ParseError::BadNumber));
    assert_eq!(parse_number(b"1,0"), Err(ParseError::BadNumber));
    assert_eq!(parse_number(b"ab.c"), Err(ParseError::BadNumber));
    assert_eq!(parse_number(b"--1.0"), Err(ParseError::BadNumber));
}

#[test]
fn stat_accumulates_min_mean_max() {
    let mut s = Stat::new(120);
    s.update(85);
    assert_eq!(s.min, 85);
    assert_eq!(s.max, 120);
    assert_eq!(s.total, 205);
    assert_eq!(s.count, 2);
    // 102.5 tenths rounds half away from zero, up to 103.
    assert_eq!(s.mean_tenths(), 103);
}

#[test]
fn stat_mean_rounds_half_away_from_zero_when_negative() {
    let mut s = Stat::new(-120);
    s.update(-85);
    assert_eq!(s.mean_tenths(), -103);
}

#[test]
fn stat_merge_combines_both_sides() {
    let mut a = Stat::new(-32);
    a.update(100);
    let mut b = Stat::new(7);
    b.update(997);
    a.merge(&b);
    assert_eq!(a.min, -32);
    assert_eq!(a.max, 997);
    assert_eq!(a.total, -32 + 100 + 7 + 997);
    assert_eq!(a.count, 4);
}

#[test]
fn stat_mean_stays_between_extrema() {
    let mut s = Stat::new(-999);
    s.update(999);
    let m = s.mean_tenths();
    assert!(s.min <= m && m <= s.max);
    assert_eq!(m, 0);
}

#[test]
fn mean_that_rounds_to_zero_prints_plain_zero() {
    let out = report_of(b"X;-0.1\nX;0.1\n", 1);
    assert_eq!(out, b"{X=-0.1/0.0/0.1}\n".to_vec());
}

#[test]
fn chunking_covers_buffer_and_cuts_after_newlines() {
    let input = b"aa;1.0\nbb;2.0\ncc;3.0\ndd;4.0\n";
    let ranges = chunk_data(input, 3, b'\n');
    assert!(1 <= ranges.len() && ranges.len() <= 3);
    assert_eq!(ranges[0].0, 0);
    assert_eq!(ranges[ranges.len() - 1].1, input.len());
    for w in 0..ranges.len() - 1 {
        assert_eq!(ranges[w].1, ranges[w + 1].0);
        assert_eq!(input[ranges[w].1 - 1], b'\n');
    }
}

#[test]
fn chunking_empty_buffer_yields_one_empty_range() {
    let ranges = chunk_data(b"", 4, b'\n');
    assert_eq!(ranges.len(), 1);
    assert_eq!(ranges[0], (0, 0));
}

#[test]
fn chunking_without_separator_yields_one_range() {
    let ranges = chunk_data(b"abc", 3, b'\n');
    assert_eq!(ranges.len(), 1);
    assert_eq!(ranges[0], (0, 3));
}

#[test]
fn aggregation_counts_and_groups_records() {
    let (n, table) = process_chunk(b"Hamburg;12.0\nHamburg;8.5\nOslo;-3.2\n").unwrap();
    assert_eq!(n, 3);
    assert_eq!(table.names.len(), 2);
    let i = table
        .names
        .iter()
        .position(|k| k.as_slice() == b"Hamburg")
        .unwrap();
    assert_eq!(table.stats[i].count, 2);
    assert_eq!(table.stats[i].total, 205);
}

#[test]
fn missing_separator_fails_the_whole_chunk() {
    let r = process_chunk(b"Paris41.2\n");
    assert_eq!(r.map(|(n, _)| n), Err(ParseError::NoSeparator));
}

#[test]
fn malformed_number_fails_the_whole_chunk() {
    let r = process_chunk(b"Paris;41.23\n");
    assert_eq!(r.map(|(n, _)| n), Err(ParseError::BadNumber));
    let r2 = process_chunk(b"a;1.0\nb;1.2.3\n");
    assert_eq!(r2.map(|(n, _)| n), Err(ParseError::BadNumber));
}

#[test]
fn blank_line_stops_a_chunk_without_error() {
    let (n, _) = process_chunk(b"a;1.0\n\nb;2.0\n").unwrap();
    assert_eq!(n, 1);
}

#[test]
fn trailing_bytes_without_newline_are_ignored() {
    let (n, _) = process_chunk(b"a;1.0\nb;2").unwrap();
    assert_eq!(n, 1);
}

#[test]
fn duplicate_stations_across_tables_merge_into_one_entry() {
    let (_, t1) = process_chunk(b"Oslo;1.0\nBergen;2.0\n").unwrap();
    let (_, t2) = process_chunk(b"Oslo;3.0\n").unwrap();
    let merged = merge_and_sort(&vec![t1, t2]);
    assert_eq!(merged.names.len(), 2);
    assert_eq!(merged.names[0].as_slice(), b"Bergen");
    assert_eq!(merged.names[1].as_slice(), b"Oslo");
    assert_eq!(merged.stats[1].count, 2);
    assert_eq!(merged.stats[1].total, 40);
}

#[test]
fn output_is_sorted_by_raw_byte_value() {
    let out = report_of("Zi;1.0\nAb;1.0\n\u{00e9};1.0\nAa;1.0\n".as_bytes(), 1);
    // UTF-8 bytes of 'e acute' sort after all ASCII names.
    assert_eq!(
        out,
        "{Aa=1.0/1.0/1.0, Ab=1.0/1.0/1.0, Zi=1.0/1.0/1.0, \u{00e9}=1.0/1.0/1.0}\n".as_bytes()
    );
}

#[test]
fn end_to_end_example() {
    let out = report_of(b"Hamburg;12.0\nHamburg;8.5\nOslo;-3.2\n", 1);
    assert_eq!(out, b"{Hamburg=8.5/10.3/12.0, Oslo=-3.2/-3.2/-3.2}\n".to_vec());
}

#[test]
fn split_counts_do_not_change_the_report() {
    let input = b"Hamburg;12.0\nOslo;-3.2\nHamburg;8.5\nParis;0.0\nOslo;10.1\nParis;-0.3\n";
    let whole = report_of(input, 1);
    for parts in 2..9 {
        assert_eq!(report_of(input, parts), whole);
    }
}

#[test]
fn summarize_runs_the_whole_pipeline() {
    let (table, out) = summarize(b"Hamburg;12.0\nHamburg;8.5\nOslo;-3.2\n", 4).unwrap();
    assert_eq!(out, b"{Hamburg=8.5/10.3/12.0, Oslo=-3.2/-3.2/-3.2}\n".to_vec());
    assert_eq!(table.names.len(), 2);
    assert_eq!(table.names[0].as_slice(), b"Hamburg");
    assert_eq!(table.stats[0].count, 2);
}

#[test]
fn summarize_reports_the_first_error() {
    assert_eq!(
        summarize(b"Paris41.2\n", 2).map(|_| ()),
        Err(ParseError::NoSeparator)
    );
    assert_eq!(
        summarize(b"a;1.0\nParis;41.23\n", 2).map(|_| ()),
        Err(ParseError::BadNumber)
    );
}

#[test]
fn empty_input_renders_empty_report() {
    let out = report_of(b"", 4);
    assert_eq!(out, b"{}\n".to_vec());
}
