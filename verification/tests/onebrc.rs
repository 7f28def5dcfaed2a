use fxhash::FxHashMap;
use onebrc::parse_decimal_to_integer_optimized;
use onebrc::{decimal_fits_i16, parse_decimal_bytes};
use onebrc::solns::report::{name_lt, render_report, sorted_by_name};
use onebrc::solns::soln::{
    chunk_ranges, merge_hashmaps, process, split_file, try_merge_hashmaps, try_process,
    try_split_file,
};
use onebrc::solns::soln2::{work, work_fits};
use onebrc::solns::Temperature;

fn summary(name: &str, min: i16, sum: i16, max: i16, count: u16) -> Temperature {
    Temperature { name: name.as_bytes().to_vec(), min, sum, max, count }
}

fn fields(t: &Temperature) -> (Vec<u8>, i16, i16, i16, u16) {
    (t.name.clone(), t.min, t.sum, t.max, t.count)
}

fn table(entries: &[Temperature]) -> FxHashMap<Vec<u8>, Temperature> {
    let mut m = FxHashMap::default();
    for t in entries {
        m.insert(t.name.clone(), t.clone());
    }
    m
}

fn lookup(m: &FxHashMap<Vec<u8>, Temperature>, name: &str) -> (Vec<u8>, i16, i16, i16, u16) {
    fields(m.get(name.as_bytes()).expect("station present"))
}

#[test]
fn test_parse_decimal_to_integer_optimized() {
    assert_eq!(parse_decimal_to_integer_optimized("123"), 123);
    assert_eq!(parse_decimal_to_integer_optimized("-123"), -123);
    assert_eq!(parse_decimal_to_integer_optimized("0"), 0);
    assert_eq!(parse_decimal_to_integer_optimized("0.0"), 0);
}

#[test]
fn parse_skips_everything_but_digits() {
    assert_eq!(parse_decimal_to_integer_optimized("-12.3"), -123);
    assert_eq!(parse_decimal_to_integer_optimized("99.9"), 999);
    assert_eq!(parse_decimal_to_integer_optimized(""), 0);
    assert_eq!(parse_decimal_to_integer_optimized("-"), 0);
    assert_eq!(parse_decimal_to_integer_optimized("1-2"), 12);
    assert_eq!(parse_decimal_to_integer_optimized("ab7c"), 7);
    assert_eq!(parse_decimal_to_integer_optimized("3276.7"), 32767);
    assert_eq!(parse_decimal_to_integer_optimized("-3276.7"), -32767);
    assert_eq!(parse_decimal_bytes(b"-1234.5"), -12345);
    assert_eq!(parse_decimal_bytes(b"\xff9"), 9);
}

#[test]
fn parse_minus_negates() {
    for s in ["0.0", "1.5", "12.3", "99.9", "3276.7"] {
        let neg = format!("-{}", s);
        assert_eq!(
            parse_decimal_to_integer_optimized(&neg),
            -parse_decimal_to_integer_optimized(s)
        );
    }
}

#[test]
fn decimal_fits_tells_the_i16_range() {
    assert!(decimal_fits_i16(b"3276.7"));
    assert!(decimal_fits_i16(b"-3276.7"));
    assert!(!decimal_fits_i16(b"3276.8"));
    assert!(!decimal_fits_i16(b"-3276.8"));
    assert!(!decimal_fits_i16(b"123456"));
    assert!(decimal_fits_i16(b""));
    assert!(decimal_fits_i16(b"x"));
}

#[test]
fn temperature_new_holds_one_reading() {
    let t = Temperature::new(b"Oslo".to_vec(), -42);
    assert_eq!(fields(&t), (b"Oslo".to_vec(), -42, -42, -42, 1));
    assert_eq!(t.mean(), -42);
}

#[test]
fn mean_rounds_toward_zero() {
    assert_eq!(summary("a", 0, 7, 5, 2).mean(), 3);
    assert_eq!(summary("a", -5, -7, 0, 2).mean(), -3);
    assert_eq!(summary("a", 0, 0, 0, 3).mean(), 0);
    assert_eq!(summary("a", 100, 1000, 500, 3).mean(), 333);
}

#[test]
fn mean_matches_integer_division_for_every_count() {
    for &sum in &[-32768i16, -32767, -1000, -7, -1, 0, 1, 7, 1000, 32767] {
        for &count in &[1u16, 2, 3, 7, 100, 32767, 32768, 40000, 65534] {
            let t = summary("a", 0, sum, 0, count);
            assert_eq!(t.mean(), sum / count as i16, "sum {} count {}", sum, count);
        }
    }
}

#[test]
fn split_file_steps_to_line_starts() {
    let data = b"a;1.0\nb;2.0\nc;3.0\n";
    assert_eq!(split_file(3, data), vec![12, 18]);
    assert_eq!(split_file(1, data), vec![18]);
    assert_eq!(split_file(2, data), vec![12, 18]);
}

#[test]
fn split_file_stops_without_newline() {
    let data = b"a;1\nb;22222";
    // the first step lands in the second line, which has no newline
    assert_eq!(split_file(2, data), vec![data.len()]);
}

#[test]
fn try_split_file_refuses_what_split_file_cannot_do() {
    assert_eq!(try_split_file(0, b"a;1\n"), None);
    // the second step would go past the end of the data
    assert_eq!(try_split_file(3, b"aaaa\n"), None);
    assert_eq!(try_split_file(3, b"a;1.0\nb;2.0\nc;3.0\n"), Some(vec![12, 18]));
}

#[test]
fn process_tallies_each_station() {
    let data = b"Oslo;-3.5\nRome;20.1\nOslo;1.0\nOslo;-5.0\nRome;19.9\npartial;1.0";
    let m = process(0, data.len(), data);
    assert_eq!(m.len(), 2);
    assert_eq!(lookup(&m, "Oslo"), (b"Oslo".to_vec(), -50, -75, 10, 3));
    assert_eq!(lookup(&m, "Rome"), (b"Rome".to_vec(), 199, 400, 201, 2));
    assert!(m.get(b"partial".as_slice()).is_none());
}

#[test]
fn process_reads_only_its_range() {
    let data = b"x;1.0\nOslo;2.0\nOslo;3.0\ny;4.0\n";
    let start = 6;
    let end = 24;
    let m = process(start, end, data);
    assert_eq!(m.len(), 1);
    assert_eq!(lookup(&m, "Oslo"), (b"Oslo".to_vec(), 20, 50, 30, 2));
}

#[test]
fn process_reads_the_field_up_to_a_second_separator() {
    let data = b"a;1.5;extra\n";
    let m = process(0, data.len(), data);
    assert_eq!(lookup(&m, "a"), (b"a".to_vec(), 15, 15, 15, 1));
}

#[test]
fn try_process_refuses_bad_input() {
    assert!(try_process(0, 4, b"a;1\n").is_some());
    assert!(try_process(2, 1, b"a;1\n").is_none());
    assert!(try_process(0, 9, b"a;1\n").is_none());
    assert!(try_process(0, 4, b"ab1\n").is_none());
    assert!(try_process(0, 8, b"a;99999\n").is_none());
    let many = b"a;3000.0\na;3000.0\n";
    assert!(try_process(0, many.len(), many).is_none());
}

#[test]
fn merge_adds_known_stations() {
    let first = table(&[summary("a", -10, 30, 40, 3)]);
    let second = table(&[summary("a", -20, 5, 25, 2)]);
    let m = merge_hashmaps(vec![first, second]);
    // the first table's station enters as its lowest reading alone
    assert_eq!(lookup(&m, "a"), (b"a".to_vec(), -20, -5, 25, 3));
}

#[test]
fn merge_takes_a_new_station_as_its_lowest_reading() {
    let first = table(&[summary("a", -10, 30, 40, 3)]);
    let second = table(&[summary("b", 7, 30, 12, 3), summary("a", 0, 10, 20, 1)]);
    let m = merge_hashmaps(vec![first, second]);
    assert_eq!(lookup(&m, "a"), (b"a".to_vec(), -10, 0, 20, 2));
    assert_eq!(lookup(&m, "b"), (b"b".to_vec(), 7, 7, 7, 1));
    assert_eq!(m.len(), 2);
}

#[test]
fn merge_of_nothing_is_empty() {
    let m = merge_hashmaps(Vec::new());
    assert!(m.is_empty());
}

#[test]
fn try_merge_refuses_overflow() {
    let part = || table(&[summary("a", 0, 30000, 30000, 1)]);
    assert!(try_merge_hashmaps(vec![part(), part()]).is_some());
    assert!(try_merge_hashmaps(vec![part(), part(), part()]).is_none());
    let first = table(&[summary("a", 0, 0, 0, 1)]);
    let second = table(&[summary("a", 0, 0, 0, 65000)]);
    let third = table(&[summary("a", 0, 0, 0, 1000)]);
    assert!(try_merge_hashmaps(vec![first, second, third]).is_none());
}

#[test]
fn names_order_as_byte_strings() {
    assert!(name_lt(b"Abc", b"abc"));
    assert!(name_lt(b"ab", b"abc"));
    assert!(!name_lt(b"abc", b"ab"));
    assert!(!name_lt(b"abc", b"abc"));
    assert!(name_lt(b"", b"a"));
    assert!(name_lt(b"Z\xc3\xbcrich", b"Z\xc3\xbd"));
}

#[test]
fn sorted_by_name_orders_every_summary() {
    let m = table(&[
        summary("Rome", 1, 1, 1, 1),
        summary("Oslo", 2, 2, 2, 1),
        summary("Abidjan", 3, 3, 3, 1),
        summary("Osl", 4, 4, 4, 1),
    ]);
    let sorted = sorted_by_name(m);
    let names: Vec<Vec<u8>> = sorted.iter().map(|t| t.name.clone()).collect();
    assert_eq!(
        names,
        vec![b"Abidjan".to_vec(), b"Osl".to_vec(), b"Oslo".to_vec(), b"Rome".to_vec()]
    );
    assert_eq!(fields(&sorted[2]), (b"Oslo".to_vec(), 2, 2, 2, 1));
}

#[test]
fn render_report_writes_tenths_with_one_decimal() {
    let results = vec![summary("Abha", -52, 170, 433, 3), summary("Oslo", -5, -5, -5, 1)];
    let out = render_report(&results);
    assert_eq!(
        String::from_utf8(out).unwrap(),
        "Abha=-5.2/5.6/43.3\nOslo=-0.5/-0.5/-0.5\n"
    );
    assert!(render_report(&Vec::new()).is_empty());
}

#[test]
fn render_report_agrees_with_float_formatting() {
    let mut x: i32 = -32768;
    while x <= 32767 {
        let v = x as i16;
        let t = summary("s", v, v, v, 1);
        let out = render_report(&vec![t]);
        let expected = format!(
            "s={:.1}/{:.1}/{:.1}\n",
            v as f32 / 10.0,
            v as f32 / 10.0,
            v as f32 / 10.0
        );
        assert_eq!(String::from_utf8(out).unwrap(), expected);
        x += 1;
    }
}

#[test]
fn pipeline_end_to_end() {
    let data = b"Oslo;1.0\nRome;2.0\nOslo;3.0\nRome;-4.0\nBern;0.5\nOslo;-1.0\n";
    let points = split_file(2, data);
    // what stands before the first split point is not read
    assert_eq!(points, vec![37, data.len()]);
    let parts: Vec<_> = (0..points.len() - 1)
        .map(|i| process(points[i], points[i + 1], data))
        .collect();
    let merged = merge_hashmaps(parts);
    let report = render_report(&sorted_by_name(merged));
    assert_eq!(
        String::from_utf8(report).unwrap(),
        "Bern=0.5/0.5/0.5\nOslo=-1.0/-1.0/-1.0\n"
    );
}

#[test]
fn work_cuts_whole_lines() {
    let contents = b"ab\ncd\nef\n";
    let mut chunks = Vec::new();
    for i in 0..3 {
        work(9, 3, i, contents, &mut chunks);
    }
    assert_eq!(chunks, vec!["ab\n".to_string(), "cd\n".to_string(), "ef\n".to_string()]);
}

#[test]
fn work_moves_bounds_back_to_newlines() {
    let contents = b"abcd\nef\ngh\n";
    let mut chunks = Vec::new();
    work(11, 2, 0, contents, &mut chunks);
    work(11, 2, 1, contents, &mut chunks);
    // nominal bounds 0, 5, 10: 5 holds 'e', so it moves back to after the
    // newline at 4; 10 is the last newline, kept
    assert_eq!(chunks, vec!["abcd\n".to_string(), "ef\ngh\n".to_string()]);
}

#[test]
fn work_maps_each_byte_to_one_character() {
    let contents = b"\xe9t\xe9\n";
    let mut chunks = Vec::new();
    work(4, 1, 0, contents, &mut chunks);
    assert_eq!(chunks, vec!["\u{e9}t\u{e9}\n".to_string()]);
}

#[test]
fn work_fits_tells_when_work_can_cut() {
    let contents = b"ab\ncd\nef\n";
    for i in 0..3 {
        assert!(work_fits(9, 3, i, contents));
    }
    assert!(!work_fits(9, 0, 0, contents));
    // the nominal start 3 of chunk 1 has no newline at or before it
    assert!(!work_fits(6, 2, 1, b"abcdef"));
    // a nominal start past the data
    assert!(!work_fits(90, 3, 1, contents));
    assert!(!work_fits(9, 3, u64::MAX, contents));
    assert!(!work_fits(u64::MAX, 1, 1, contents));
}

#[test]
fn work_chunks_tile_the_file() {
    let contents = b"Oslo;1.0\nRome;2.0\nOslo;3.0\nRome;-4.0\nBern;0.5\n";
    let size = contents.len() as u64;
    let mut chunks = Vec::new();
    for i in 0..4 {
        assert!(work_fits(size, 4, i, contents));
        work(size, 4, i, contents, &mut chunks);
    }
    // consecutive chunks meet; the last line, past the last nominal end
    // (4 * 11 = 44) and its newline before it, is in no chunk
    assert_eq!(chunks.concat().as_bytes(), &contents[..37]);
    for c in &chunks {
        assert!(c.is_empty() || c.ends_with('\n'));
    }
}

#[test]
fn split_points_follow_newlines_and_increase() {
    let data = b"Oslo;1.0\nRome;2.0\nOslo;3.0\nRome;-4.0\nBern;0.5\nOslo;-1.0\n";
    for n in 1..8 {
        if let Some(points) = try_split_file(n, data) {
            assert!(points.len() <= n);
            assert_eq!(*points.last().unwrap(), data.len());
            for w in 0..points.len() - 1 {
                assert_eq!(data[points[w] - 1], b'\n');
                if w + 1 < points.len() - 1 {
                    assert!(points[w] < points[w + 1]);
                }
            }
        }
    }
}

#[test]
fn tallied_summaries_are_consistent() {
    let data = b"a;1.0\nb;-2.5\na;-3.0\na;9.9\nb;0.0\nc;12.3\n";
    let m = process(0, data.len(), data);
    let merged = merge_hashmaps(vec![m.clone(), m.clone(), m]);
    for table in [process(0, data.len(), data), merged] {
        for (name, t) in &table {
            assert_eq!(*name, t.name);
            assert!(t.count >= 1);
            assert!(t.min <= t.max);
            let c = t.count as i32;
            assert!(t.min as i32 * c <= t.sum as i32 && t.sum as i32 <= t.max as i32 * c);
            assert!(t.min <= t.mean() && t.mean() <= t.max);
        }
    }
}

#[test]
fn chunk_ranges_pair_consecutive_points() {
    assert_eq!(chunk_ranges(&vec![12, 18]), vec![(12, 18)]);
    assert_eq!(chunk_ranges(&vec![5, 9, 9, 20]), vec![(5, 9), (9, 9), (9, 20)]);
    assert!(chunk_ranges(&vec![7]).is_empty());
}

#[test]
fn merged_summaries_sit_under_their_names() {
    let first = table(&[summary("a", 1, 1, 1, 1)]);
    // a summary stored under another name still enters under its key
    let mut second: FxHashMap<Vec<u8>, Temperature> = FxHashMap::default();
    second.insert(b"b".to_vec(), summary("zzz", 3, 9, 5, 2));
    let m = merge_hashmaps(vec![first, second]);
    for (name, t) in &m {
        assert_eq!(*name, t.name);
    }
    assert_eq!(lookup(&m, "b"), (b"b".to_vec(), 3, 3, 3, 1));
}

#[test]
fn trailing_bytes_are_never_read() {
    let data = b"a;1.0\nb;2.0\nc;3";
    let whole = process(0, data.len(), data);
    let cut = process(0, 12, data);
    assert_eq!(whole.len(), cut.len());
    for (name, t) in &whole {
        assert_eq!(fields(t), fields(cut.get(name).unwrap()));
    }
    assert!(process(0, 3, b"a;1").is_empty());
}

#[test]
fn line_order_does_not_matter() {
    let d1 = b"a;1.0\nb;-2.0\na;3.5\nb;0.0\n";
    let d2 = b"b;0.0\na;3.5\nb;-2.0\na;1.0\n";
    let m1 = process(0, d1.len(), d1);
    let m2 = process(0, d2.len(), d2);
    assert_eq!(m1.len(), m2.len());
    for (name, t) in &m1 {
        assert_eq!(fields(t), fields(m2.get(name).unwrap()));
    }
}
