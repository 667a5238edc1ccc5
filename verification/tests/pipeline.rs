use measurements::run;
use measurements::Error;

fn text(out: Vec<u8>) -> String {
    String::from_utf8(out).unwrap()
}

#[test]
fn two_keys_three_records() {
    let data = b"Tokyo;10.0\nTokyo;20.0\nOslo;5.0\n";
    let out = run(data, 1).unwrap();
    assert_eq!(text(out), "Oslo=5.0/5.0/5.0\nTokyo=10.0/20.0/15.0\n");
}

#[test]
fn partitioning_does_not_change_output() {
    let data = b"Tokyo;10.0\nTokyo;20.0\nOslo;5.0\n";
    let one = run(data, 1).unwrap();
    for workers in 2..8 {
        let many = run(data, workers).unwrap();
        assert_eq!(one, many);
    }
}

#[test]
fn single_key_observed_once() {
    let data = b"Paris;3.3\n";
    let out = run(data, 1).unwrap();
    assert_eq!(text(out), "Paris=3.3/3.3/3.3\n");
}

#[test]
fn missing_delimiter_aborts() {
    let data = b"Tokyo10.0\n";
    let r = run(data, 1);
    assert_eq!(r, Err(Error::MalformedRecord));
}

#[test]
fn non_text_key_aborts() {
    let data = b"\xFFcity;1.0\n";
    assert_eq!(run(data, 1), Err(Error::MalformedRecord));
    let late = b"good;1.0\nbad\xC0\x80key;2.0\n";
    assert_eq!(run(late, 2), Err(Error::MalformedRecord));
}

#[test]
fn multi_byte_text_key_is_accepted() {
    let data = b"Z\xC3\xBCrich;10.0\nOslo;5.0\n";
    let out = run(data, 1).unwrap();
    assert_eq!(out, b"Oslo=5.0/5.0/5.0\nZ\xC3\xBCrich=10.0/10.0/10.0\n".to_vec());
}

#[test]
fn second_fraction_digit_rounds_the_value() {
    let out = run(b"k;3.26\nk;1.14\n", 1).unwrap();
    assert_eq!(String::from_utf8(out).unwrap(), "k=1.1/3.3/2.2\n");
}

#[test]
fn bad_number_aborts() {
    let data = b"Tokyo;1x.0\n";
    assert_eq!(run(data, 1), Err(Error::MalformedRecord));
}

#[test]
fn malformed_late_line_aborts_whole_run() {
    let data = b"a;1.0\nb;2.0\nbroken\n";
    assert_eq!(run(data, 4), Err(Error::MalformedRecord));
}

#[test]
fn empty_input_empty_output() {
    let out = run(b"", 1).unwrap();
    assert_eq!(out.len(), 0);
}

#[test]
fn output_sorted_with_no_duplicate_keys() {
    let data = b"c;1.0\na;2.0\nb;3.0\na;4.0\nc;0.0\n";
    let out = run(data, 2).unwrap();
    assert_eq!(text(out), "a=2.0/4.0/3.0\nb=3.0/3.0/3.0\nc=0.0/1.0/0.5\n");
}

#[test]
fn negative_values() {
    let data = b"x;-5.5\ny;-2.0\ny;1.0\n";
    let out = run(data, 1).unwrap();
    assert_eq!(text(out), "x=-5.5/-5.5/-5.5\ny=-2.0/1.0/-0.5\n");
}

#[test]
fn average_rounds_half_away_from_zero() {
    let up = run(b"k;1.0\nk;2.1\n", 1).unwrap();
    assert_eq!(text(up), "k=1.0/2.1/1.6\n");
    let down = run(b"k;-1.0\nk;-2.1\n", 1).unwrap();
    assert_eq!(text(down), "k=-2.1/-1.0/-1.6\n");
}

#[test]
fn trailing_bytes_after_last_terminator_are_ignored() {
    let data = b"a;1.0\nb;2.0";
    let out = run(data, 1).unwrap();
    assert_eq!(text(out), "a=1.0/1.0/1.0\n");
}

#[test]
fn large_integer_parts() {
    let data = b"big;12345.6\nbig;0.4\n";
    let out = run(data, 1).unwrap();
    assert_eq!(text(out), "big=0.4/12345.6/6173.0\n");
}
