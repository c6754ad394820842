use hjq::codec::{decode, encode, DecodeError};
use hjq::path::{copy_range, decimal_digits, find_run_end, key_less, same_bytes, starts_with};
use hjq::{is_plain, PathError};
use hjq::{console_line, PathBuffer, Row, Scalar, Store, DELIMITER};

fn number(n: u64) -> Scalar {
    Scalar::Number(serde_json::Number::from(n))
}

#[test]
fn delimiter_is_the_slash() {
    assert_eq!(DELIMITER, b'/');
    assert_eq!(hjq::path::AFTER_DELIMITER, b'/' + 1);
}

#[test]
fn store_keeps_rows_in_key_order() {
    let mut store = Store::new();
    store.put(b"b/", number(2));
    store.put(b"a/", number(1));
    store.put(b"c/", number(3));
    store.put(b"ab/", number(4));
    assert_eq!(store.len(), 4);
    let keys: Vec<Vec<u8>> = (0..store.len()).map(|i| store.row(i).key.clone()).collect();
    assert_eq!(
        keys,
        vec![b"a/".to_vec(), b"ab/".to_vec(), b"b/".to_vec(), b"c/".to_vec()]
    );
}

#[test]
fn store_put_replaces_the_value_of_a_key() {
    let mut store = Store::new();
    store.put(b"a/", number(1));
    store.put(b"b/", number(2));
    store.put(b"a/", number(3));
    assert_eq!(store.len(), 2);
    assert_eq!(
        store.row(0),
        &Row {
            key: b"a/".to_vec(),
            value: number(3)
        }
    );
    assert_eq!(
        store.row(1),
        &Row {
            key: b"b/".to_vec(),
            value: number(2)
        }
    );
}

#[test]
fn store_seek_lands_on_the_first_key_not_below() {
    let mut store = Store::new();
    for k in ["a/", "c/", "e/"] {
        store.put(k.as_bytes(), Scalar::Null);
    }
    assert_eq!(store.seek(b""), 0);
    assert_eq!(store.seek(b"a/"), 0);
    assert_eq!(store.seek(b"a0"), 1);
    assert_eq!(store.seek(b"b"), 1);
    assert_eq!(store.seek(b"c/"), 1);
    assert_eq!(store.seek(b"d"), 2);
    assert_eq!(store.seek(b"e/"), 2);
    assert_eq!(store.seek(b"e/x"), 3);
    assert_eq!(store.seek(b"z"), 3);
    assert_eq!(Store::new().seek(b"a"), 0);
}

#[test]
fn keys_compare_byte_by_byte() {
    assert!(key_less(b"", b"a"));
    assert!(!key_less(b"", b""));
    assert!(!key_less(b"a", b"a"));
    assert!(key_less(b"a", b"ab"));
    assert!(!key_less(b"ab", b"a"));
    assert!(key_less(b"ab", b"b"));
    assert!(key_less(b"a-b/", b"a/"));
    assert!(key_less(b"a/", b"a0"));
    assert!(key_less(b"x/y/999/", b"x/y0"));
    assert!(key_less(&[1, 255], &[2]));
    assert!(!key_less(&[200], &[100, 1]));
}

#[test]
fn prefixes_and_equality() {
    assert!(starts_with(b"abc/0/", b"ab"));
    assert!(starts_with(b"abc", b"abc"));
    assert!(starts_with(b"abc", b""));
    assert!(!starts_with(b"ab", b"abc"));
    assert!(!starts_with(b"abd", b"abc"));
    assert!(same_bytes(b"abc", b"abc"));
    assert!(same_bytes(b"", b""));
    assert!(!same_bytes(b"abc", b"abd"));
    assert!(!same_bytes(b"abc", b"ab"));
}

#[test]
fn runs_end_at_the_delimiter() {
    assert_eq!(find_run_end(b"x/y/0/", 0), 1);
    assert_eq!(find_run_end(b"x/yz/0/", 2), 4);
    assert_eq!(find_run_end(b"x/y", 2), 3);
    assert_eq!(find_run_end(b"x//y", 2), 2);
    assert_eq!(find_run_end(b"x", 1), 1);
    assert_eq!(copy_range(b"x/yz/0/", 2, 4), b"yz".to_vec());
    assert_eq!(copy_range(b"abc", 1, 1), Vec::<u8>::new());
}

#[test]
fn decimal_digits_of_indices() {
    assert_eq!(decimal_digits(0), b"0".to_vec());
    assert_eq!(decimal_digits(7), b"7".to_vec());
    assert_eq!(decimal_digits(10), b"10".to_vec());
    assert_eq!(decimal_digits(999), b"999".to_vec());
    assert_eq!(decimal_digits(1000), b"1000".to_vec());
    assert_eq!(
        decimal_digits(u64::MAX),
        b"18446744073709551615".to_vec()
    );
}

#[test]
fn path_buffer_grows_and_is_cut_back() {
    let mut path = PathBuffer::new();
    assert_eq!(path.as_slice(), b"");
    assert_eq!(path.len(), 0);
    let at_root = path.push_segment(b"x").expect("plain");
    assert_eq!(at_root, 0);
    assert_eq!(path.as_slice(), b"x/");
    let at_x = path.push_segment(b"y").expect("plain");
    assert_eq!(at_x, 2);
    assert_eq!(path.as_slice(), b"x/y/");
    let at_y = path.push_index(12);
    assert_eq!(at_y, 4);
    assert_eq!(path.as_slice(), b"x/y/12/");
    assert_eq!(path.len(), 7);
    path.truncate(at_y);
    assert_eq!(path.as_slice(), b"x/y/");
    path.truncate(100);
    assert_eq!(path.as_slice(), b"x/y/");
    path.truncate(at_x);
    assert_eq!(path.as_slice(), b"x/");
    path.truncate(at_root);
    assert_eq!(path.as_slice(), b"");
}

#[test]
fn encode_writes_compact_json() {
    assert_eq!(encode(&Scalar::Null), b"null".to_vec());
    assert_eq!(encode(&Scalar::Bool(true)), b"true".to_vec());
    assert_eq!(encode(&Scalar::Bool(false)), b"false".to_vec());
    assert_eq!(encode(&number(42)), b"42".to_vec());
    assert_eq!(
        encode(&Scalar::Number(serde_json::Number::from(-7i64))),
        b"-7".to_vec()
    );
    assert_eq!(
        encode(&Scalar::Text("foo".to_string())),
        b"\"foo\"".to_vec()
    );
    assert_eq!(
        encode(&Scalar::Text("a\"b\n".to_string())),
        b"\"a\\\"b\\n\"".to_vec()
    );
}

#[test]
fn decode_reads_scalars_only() {
    assert_eq!(decode(b"null"), Ok(Scalar::Null));
    assert_eq!(decode(b"true"), Ok(Scalar::Bool(true)));
    assert_eq!(decode(b" 42 "), Ok(number(42)));
    assert_eq!(decode(b"\"foo\""), Ok(Scalar::Text("foo".to_string())));
    assert_eq!(decode(b"[1]"), Err(DecodeError::NotScalar));
    assert_eq!(decode(b"{\"a\":1}"), Err(DecodeError::NotScalar));
    assert_eq!(decode(b""), Err(DecodeError::Malformed));
    assert_eq!(decode(b"foo"), Err(DecodeError::Malformed));
    assert_eq!(decode(b"1 2"), Err(DecodeError::Malformed));
}

#[test]
fn decode_gives_back_what_encode_wrote() {
    for value in [
        Scalar::Null,
        Scalar::Bool(false),
        number(0),
        number(u64::MAX),
        Scalar::Number(serde_json::Number::from(i64::MIN)),
        Scalar::Text(String::new()),
        Scalar::Text("x/y \u{e9}".to_string()),
    ] {
        let bytes = encode(&value);
        assert_eq!(decode(&bytes), Ok(value));
    }
}

#[test]
fn console_line_joins_path_and_text() {
    assert_eq!(console_line(b"a/b/", b"\"foo\""), b"a/b/ = \"foo\"".to_vec());
    assert_eq!(console_line(b"", b"1"), b" = 1".to_vec());
    assert_eq!(console_line(b"a/", b""), b"a/ = ".to_vec());
}

#[test]
fn duplicate_copies_a_scalar() {
    for value in [
        Scalar::Null,
        Scalar::Bool(true),
        number(3),
        Scalar::Text("foo".to_string()),
    ] {
        assert_eq!(value.duplicate(), value);
    }
}

#[test]
fn numbers_with_a_fraction_are_carried_through() {
    let half = Scalar::Number(serde_json::Number::from_f64(1.5).expect("finite"));
    assert_eq!(encode(&half), b"1.5".to_vec());
    assert_eq!(decode(b"1.5"), Ok(half.duplicate()));
    let mut store = Store::new();
    store.put(b"a/", half.duplicate());
    assert_eq!(store.row(0).value, half);
}

#[test]
fn path_buffer_refuses_segments_that_are_not_plain() {
    let mut path = PathBuffer::new();
    assert_eq!(path.push_segment(b"x"), Ok(0));
    assert_eq!(path.push_segment(b""), Err(PathError::EmptySegment));
    assert_eq!(path.as_slice(), b"x/");
    assert_eq!(path.push_segment(b"a/b"), Err(PathError::DelimiterInSegment));
    assert_eq!(path.push_segment(b"/"), Err(PathError::DelimiterInSegment));
    assert_eq!(path.push_segment(b"ab/"), Err(PathError::DelimiterInSegment));
    assert_eq!(path.as_slice(), b"x/");
    assert_eq!(path.push_segment(b"a b"), Ok(2));
    assert_eq!(path.as_slice(), b"x/a b/");
}

#[test]
fn plain_segments_are_not_empty_and_hold_no_delimiter() {
    assert!(is_plain(b"a"));
    assert!(is_plain(b"a-b.c"));
    assert!(is_plain(b"0"));
    assert!(!is_plain(b""));
    assert!(!is_plain(b"/"));
    assert!(!is_plain(b"a/b"));
    assert!(!is_plain(b"/a"));
    assert!(!is_plain(b"a/"));
}
