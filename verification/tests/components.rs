use measurements::accumulate::{process_chunk, PartitionAcc};
use measurements::chunk::get_chunks;
use measurements::format::{average_tenths, format_results};
use measurements::measurement::{combine_measurement, update_measurement, Measurement};
use measurements::merge::GlobalAcc;
use measurements::parse::{parse_record, parse_value};
use measurements::text::is_text_bytes;
use measurements::Error;

#[test]
fn parse_value_accepts_plain_forms() {
    assert_eq!(parse_value(b"3.3"), Ok(33));
    assert_eq!(parse_value(b"10"), Ok(100));
    assert_eq!(parse_value(b"-1.5"), Ok(-15));
    assert_eq!(parse_value(b"007.9"), Ok(79));
}

#[test]
fn parse_value_rounds_to_nearest_tenth() {
    assert_eq!(parse_value(b"3.24"), Ok(32));
    assert_eq!(parse_value(b"3.25"), Ok(33));
    assert_eq!(parse_value(b"3.26"), Ok(33));
    assert_eq!(parse_value(b"+2.25"), Ok(23));
    assert_eq!(parse_value(b"0.07"), Ok(1));
    assert_eq!(parse_value(b"-0.05"), Ok(-1));
    assert_eq!(parse_value(b"1.2499"), Ok(12));
    assert_eq!(parse_value(b"1.2501"), Ok(13));
}

#[test]
fn parse_value_rejects_malformed_forms() {
    assert_eq!(parse_value(b""), Err(Error::MalformedRecord));
    assert_eq!(parse_value(b"-"), Err(Error::MalformedRecord));
    assert_eq!(parse_value(b"1."), Err(Error::MalformedRecord));
    assert_eq!(parse_value(b".5"), Err(Error::MalformedRecord));
    assert_eq!(parse_value(b"abc"), Err(Error::MalformedRecord));
    assert_eq!(parse_value(b"1.2.3"), Err(Error::MalformedRecord));
    assert_eq!(parse_value(b"99999999999999999"), Err(Error::MalformedRecord));
}

#[test]
fn parse_record_splits_at_first_delimiter() {
    let (key, value) = parse_record(b"St. Louis;12.5").unwrap();
    assert_eq!(key, b"St. Louis");
    assert_eq!(value, 125);
    assert_eq!(parse_record(b"a;b;1.0"), Err(Error::MalformedRecord));
    assert_eq!(parse_record(b"no delimiter"), Err(Error::MalformedRecord));
}

#[test]
fn parse_record_rejects_non_text_key() {
    assert_eq!(parse_record(b"\xFF;1.0"), Err(Error::MalformedRecord));
    assert_eq!(parse_record(b"a\x80b;1.0"), Err(Error::MalformedRecord));
    assert_eq!(parse_record(b"a\xC3;1.0"), Err(Error::MalformedRecord));
}

#[test]
fn text_check_follows_utf8_shape() {
    assert!(is_text_bytes(b""));
    assert!(is_text_bytes(b"plain ascii"));
    assert!(is_text_bytes(b"Z\xC3\xBCrich"));
    assert!(is_text_bytes(b"\xE2\x82\xAC"));
    assert!(is_text_bytes(b"\xF0\x9F\x99\x82"));
    assert!(!is_text_bytes(b"\x80"));
    assert!(!is_text_bytes(b"\xC0\x80"));
    assert!(!is_text_bytes(b"\xC1\xBF"));
    assert!(!is_text_bytes(b"\xE0\x9F\xBF"));
    assert!(!is_text_bytes(b"\xED\xA0\x80"));
    assert!(!is_text_bytes(b"\xF0\x8F\xBF\xBF"));
    assert!(!is_text_bytes(b"\xF4\x90\x80\x80"));
    assert!(!is_text_bytes(b"\xF5\x80\x80\x80"));
    assert!(!is_text_bytes(b"\xC3"));
    assert!(!is_text_bytes(b"\xE2\x82"));
}

#[test]
fn counts_equal_lines_per_key() {
    let acc = process_chunk(b"a;1.0\na;2.0\nb;3.0\na;4.0\n").unwrap();
    let mut count_a = 0;
    let mut count_b = 0;
    for (key, m) in &acc.entries {
        if key.as_slice() == b"a" {
            count_a = m.count;
        }
        if key.as_slice() == b"b" {
            count_b = m.count;
        }
    }
    assert_eq!(count_a, 3);
    assert_eq!(count_b, 1);
}

#[test]
fn average_lies_between_extremes() {
    let acc = process_chunk(b"k;1.0\nk;2.0\nk;9.9\n").unwrap();
    let m = &acc.entries[0].1;
    let avg = average_tenths(m);
    assert!(m.min <= avg && avg <= m.max);
    assert_eq!(avg, 43);
}

#[test]
fn combine_with_itself_doubles_sum_and_count() {
    let mut m = Measurement::new(55);
    update_measurement(&mut m, 15);
    let copy = m;
    combine_measurement(&mut m, copy);
    assert_eq!(m.min, copy.min);
    assert_eq!(m.max, copy.max);
    assert_eq!(m.sum, 2 * copy.sum);
    assert_eq!(m.count, 2 * copy.count);
}

#[test]
fn chunk_boundary_moves_forward_to_next_terminator() {
    let data = b"a;1\nb;2\nc;3\n";
    let chunks = get_chunks(data, 2);
    assert_eq!(chunks, vec![(0, 8), (8, 12)]);
    assert_eq!(data[7], b'\n');
}

#[test]
fn chunking_covers_whole_buffer() {
    let data = b"aa;1.5\nbb;2.5\ncc;3.5\ndd;4.5\n";
    for workers in 1..6 {
        let chunks = get_chunks(data, workers);
        assert!(chunks.len() >= 1 && chunks.len() <= workers);
        assert_eq!(chunks[0].0, 0);
        assert_eq!(chunks[chunks.len() - 1].1, data.len());
        for w in chunks.windows(2) {
            assert_eq!(w[0].1, w[1].0);
            assert_eq!(data[w[0].1 - 1], b'\n');
        }
    }
}

#[test]
fn chunking_empty_buffer() {
    let chunks = get_chunks(b"", 4);
    assert_eq!(chunks, vec![(0, 0)]);
}

#[test]
fn merge_order_of_arrival_does_not_matter() {
    let p1 = process_chunk(b"x;1.0\ny;5.0\n").unwrap();
    let p2 = process_chunk(b"y;3.0\nz;2.0\n").unwrap();

    let mut g12 = GlobalAcc::new();
    assert!(g12.try_merge_into(&p1));
    assert!(g12.try_merge_into(&p2));

    let mut g21 = GlobalAcc::new();
    assert!(g21.try_merge_into(&p2));
    assert!(g21.try_merge_into(&p1));

    assert_eq!(format_results(&g12), format_results(&g21));
    assert_eq!(
        String::from_utf8(format_results(&g12)).unwrap(),
        "x=1.0/1.0/1.0\ny=3.0/5.0/4.0\nz=2.0/2.0/2.0\n"
    );
}

#[test]
fn global_accumulator_keeps_keys_sorted() {
    let p = process_chunk(b"pear;1.0\napple;2.0\nmango;3.0\n").unwrap();
    let mut g = GlobalAcc::new();
    assert!(g.try_merge_into(&p));
    let keys: Vec<&[u8]> = g.entries.iter().map(|e| e.0.as_slice()).collect();
    assert_eq!(keys, vec![&b"apple"[..], &b"mango"[..], &b"pear"[..]]);
}

#[test]
fn merge_refuses_count_overflow() {
    let saturated = Measurement {
        min: 0,
        max: 0,
        sum: 0,
        count: u64::MAX,
    };
    let p1 = PartitionAcc {
        entries: vec![(b"k".to_vec(), saturated)],
    };
    let mut g = GlobalAcc::new();
    assert!(g.try_merge_into(&p1));
    let p2 = process_chunk(b"k;0.0\n").unwrap();
    assert!(!g.try_merge_into(&p2));
    assert_eq!(g.entries[0].1.count, u64::MAX);
}

#[test]
fn process_chunk_rejects_empty_line() {
    let r = process_chunk(b"a;1.0\n\nb;2.0\n");
    assert!(matches!(r, Err(Error::MalformedRecord)));
}
