use station_stats::{
    aggregate_partitioned, aggregate_range, format_results, partition_bounds, summarize,
    ParseError, StationTable,
};

fn run(input: &str, parts: usize) -> String {
    String::from_utf8(summarize(input.as_bytes(), parts).unwrap()).unwrap()
}

#[test]
fn two_keys_with_repeats() {
    let input = "Hamburg;12.0\nHamburg;14.0\nBerlin;5.0\n";
    assert_eq!(run(input, 1), "{Berlin=5.0/5.0/5.0, Hamburg=12.0/13.0/14.0}\n");
    assert_eq!(run(input, 3), "{Berlin=5.0/5.0/5.0, Hamburg=12.0/13.0/14.0}\n");
}

#[test]
fn negative_and_positive_readings() {
    assert_eq!(run("X;-3.5\nX;2.5\n", 2), "{X=-3.5/-0.5/2.5}\n");
}

#[test]
fn single_zero_reading() {
    assert_eq!(run("Oslo;0.0\n", 4), "{Oslo=0.0/0.0/0.0}\n");
}

#[test]
fn empty_file() {
    assert_eq!(run("", 1), "{}\n");
    assert_eq!(run("", 8), "{}\n");
}

#[test]
fn keys_come_out_sorted() {
    assert_eq!(run("Zurich;1.0\nAmman;2.0\n", 2), "{Amman=2.0/2.0/2.0, Zurich=1.0/1.0/1.0}\n");
}

#[test]
fn sort_is_by_bytes_and_strict() {
    let out = run("b;1.0\nB;1.0\nab;1.0\na;1.0\nb;2.0\n", 3);
    assert_eq!(out, "{B=1.0/1.0/1.0, a=1.0/1.0/1.0, ab=1.0/1.0/1.0, b=1.0/1.5/2.0}\n");
}

#[test]
fn last_line_without_newline() {
    assert_eq!(run("A;1.0\nA;3.0", 2), "{A=1.0/2.0/3.0}\n");
}

fn synthetic(lines: usize) -> String {
    let names = ["Oslo", "Lima", "Cairo", "Perth", "Quito", "Hanoi", "Dakar"];
    let mut s = String::new();
    let mut x: u64 = 12345;
    for i in 0..lines {
        x = x.wrapping_mul(6364136223846793005).wrapping_add(1442695040888963407);
        let v = ((x >> 33) % 1999) as i64 - 999;
        let name = names[i % names.len()];
        let sign = if v < 0 { "-" } else { "" };
        s.push_str(&format!("{};{}{}.{}\n", name, sign, v.abs() / 10, v.abs() % 10));
    }
    s
}

#[test]
fn worker_count_does_not_change_output() {
    let input = synthetic(10_000);
    let one = run(&input, 1);
    let sixteen = run(&input, 16);
    assert_eq!(one, sixteen);
    assert_eq!(one, run(&input, 2));
    assert_eq!(one, run(&input, 10_000));
    assert_eq!(one, run(&input, input.len() + 5));
}

#[test]
fn halves_merged_equal_whole() {
    let input = synthetic(1_000);
    let bytes = input.as_bytes();
    let mut mid = bytes.len() / 2;
    while bytes[mid - 1] != b'\n' {
        mid += 1;
    }
    let mut left = aggregate_range(bytes, 0, mid).unwrap();
    let right = aggregate_range(bytes, mid, bytes.len()).unwrap();
    left.merge(right);
    let whole = aggregate_range(bytes, 0, bytes.len()).unwrap();
    assert_eq!(left.readings(), whole.readings());
    assert_eq!(format_results(left), format_results(whole));
}

#[test]
fn merge_with_empty_table_changes_nothing() {
    let bytes = b"A;1.0\nB;2.0\n";
    let mut t = StationTable::new();
    t.merge(aggregate_range(bytes, 0, bytes.len()).unwrap());
    assert_eq!(format_results(t), b"{A=1.0/1.0/1.0, B=2.0/2.0/2.0}\n".to_vec());
}

#[test]
fn mean_rounds_half_away_from_zero() {
    assert_eq!(run("k;1.0\nk;1.1\n", 1), "{k=1.0/1.1/1.1}\n");
    assert_eq!(run("k;-1.0\nk;-1.1\n", 1), "{k=-1.1/-1.1/-1.0}\n");
    assert_eq!(run("k;1.0\nk;1.1\n", 2), run("k;1.0\nk;1.1\n", 1));
}

#[test]
fn mean_of_thirds() {
    assert_eq!(run("k;0.0\nk;0.0\nk;0.1\n", 1), "{k=0.0/0.0/0.1}\n");
    assert_eq!(run("k;0.0\nk;0.1\nk;0.1\n", 1), "{k=0.0/0.1/0.1}\n");
    assert_eq!(run("k;-0.1\nk;0.0\nk;0.0\n", 1), "{k=-0.1/0.0/0.0}\n");
}

#[test]
fn large_values_keep_their_digits() {
    assert_eq!(run("A;-99.9\nA;123456.7\n", 1), "{A=-99.9/61678.4/123456.7}\n");
}

#[test]
fn line_without_delimiter_is_an_error() {
    assert_eq!(summarize(b"A;1.0\nBroken\nC;2.0\n", 1), Err(ParseError::NoDigits));
    assert_eq!(summarize(b"A;1.0\nBroken\nC;2.0\n", 3), Err(ParseError::NoDigits));
}

#[test]
fn empty_line_is_an_error() {
    assert_eq!(summarize(b"A;1.0\n\nC;2.0\n", 2), Err(ParseError::NoDigits));
}

#[test]
fn first_error_in_buffer_wins() {
    let input = b"A;1.0\nB;abc\nC;99999999999.0\n";
    for parts in 1..6 {
        assert_eq!(summarize(input, parts), Err(ParseError::NoDigits));
    }
    let input = b"A;1.0\nC;99999999999.0\nB;abc\n";
    for parts in 1..6 {
        assert_eq!(summarize(input, parts), Err(ParseError::OutOfRange));
    }
}

#[test]
fn partitioned_table_matches_single_pass() {
    let input = synthetic(500);
    let bytes = input.as_bytes();
    let single = aggregate_partitioned(bytes, 1).unwrap();
    let many = aggregate_partitioned(bytes, 7).unwrap();
    assert_eq!(single.readings(), 500);
    assert_eq!(many.readings(), 500);
    assert_eq!(format_results(single), format_results(many));
}

#[test]
fn bounds_are_line_aligned() {
    let input = synthetic(300);
    let bytes = input.as_bytes();
    for parts in [0usize, 1, 2, 3, 7, 16, 300, 5000] {
        let b = partition_bounds(bytes, parts);
        assert_eq!(b[0], 0);
        assert_eq!(*b.last().unwrap(), bytes.len());
        assert!(b.len() <= parts.max(1) + 1);
        for w in b.windows(2) {
            assert!(w[0] < w[1]);
        }
        for &x in &b[1..b.len() - 1] {
            assert_eq!(bytes[x - 1], b'\n');
        }
    }
}

#[test]
fn bounds_follow_even_shares() {
    let bytes = b"aa;1.0\nbb;2.0\ncc;3.0\ndd;4.0\n";
    assert_eq!(partition_bounds(bytes, 2), vec![0, 21, 28]);
    assert_eq!(partition_bounds(bytes, 4), vec![0, 14, 21, 28]);
    assert_eq!(partition_bounds(bytes, 1), vec![0, 28]);
}

#[test]
fn bounds_of_empty_buffer() {
    assert_eq!(partition_bounds(b"", 4), vec![0]);
}

#[test]
fn bounds_with_more_parts_than_bytes() {
    let bytes = b"a;1.0\n";
    assert_eq!(partition_bounds(bytes, 64), vec![0, 6]);
}
