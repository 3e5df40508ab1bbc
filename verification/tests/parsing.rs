use hitome::parse::{
    find_first, find_last, parse_decimal, parse_number, parse_signed, split_fields, split_first,
    split_last, split_lines, starts_with, without_prefix, Decimal,
};

fn strings(v: Vec<Vec<u8>>) -> Vec<String> {
    v.into_iter().map(|x| String::from_utf8(x).unwrap()).collect()
}

#[test]
fn lines_end_at_line_feeds() {
    assert_eq!(strings(split_lines(b"a\nb\n")), vec!["a", "b"]);
    assert_eq!(strings(split_lines(b"a\nb")), vec!["a", "b"]);
    assert_eq!(strings(split_lines(b"a\n\nb\n")), vec!["a", "", "b"]);
    assert_eq!(strings(split_lines(b"\n")), vec![""]);
    assert_eq!(strings(split_lines(b"")), Vec::<String>::new());
    assert_eq!(strings(split_lines(b"a\r\nb\r")), vec!["a", "b\r"]);
    assert_eq!(strings(split_lines(b"\r\n\r\n")), vec!["", ""]);
}

#[test]
fn lines_split_as_the_standard_library_splits_them() {
    for s in ["", "\n", "a", "a\n", "a\n\n", "\n\na", "a\r\n", "a\r", "\r\n", "x\r\r\ny", "one\ntwo\r\n\nthree"] {
        let want: Vec<String> = s.lines().map(|l| l.to_string()).collect();
        assert_eq!(strings(split_lines(s.as_bytes())), want, "{:?}", s);
    }
}

#[test]
fn fields_are_runs_between_white_space() {
    assert_eq!(strings(split_fields(b"  cpu0 1 2\t3\r\n")), vec!["cpu0", "1", "2", "3"]);
    assert_eq!(strings(split_fields(b"")), Vec::<String>::new());
    assert_eq!(strings(split_fields(b" \t ")), Vec::<String>::new());
    assert_eq!(strings(split_fields(b"one")), vec!["one"]);
    assert_eq!(strings(split_fields(b"a\x0cb")), vec!["a", "b"]);
}

#[test]
fn fields_split_as_the_standard_library_splits_them() {
    for s in ["", " ", "a b", "  a  b  ", "a\tb\nc", "x", " x", "x "] {
        let want: Vec<String> = s.split_ascii_whitespace().map(|l| l.to_string()).collect();
        assert_eq!(strings(split_fields(s.as_bytes())), want, "{:?}", s);
    }
}

#[test]
fn unsigned_numbers() {
    assert_eq!(parse_number(b"0"), Some(0));
    assert_eq!(parse_number(b"007"), Some(7));
    assert_eq!(parse_number(b"+42"), Some(42));
    assert_eq!(parse_number(b"18446744073709551615"), Some(u64::MAX));
    assert_eq!(parse_number(b"18446744073709551616"), None);
    assert_eq!(parse_number(b"99999999999999999999999"), None);
    assert_eq!(parse_number(b""), None);
    assert_eq!(parse_number(b"+"), None);
    assert_eq!(parse_number(b"-1"), None);
    assert_eq!(parse_number(b"12a"), None);
    assert_eq!(parse_number(b" 1"), None);
}

#[test]
fn signed_numbers() {
    assert_eq!(parse_signed(b"45000"), Some(45000));
    assert_eq!(parse_signed(b"-5000"), Some(-5000));
    assert_eq!(parse_signed(b"+5"), Some(5));
    assert_eq!(parse_signed(b"9223372036854775807"), Some(i64::MAX));
    assert_eq!(parse_signed(b"-9223372036854775807"), Some(-i64::MAX));
    assert_eq!(parse_signed(b"9223372036854775808"), None);
    assert_eq!(parse_signed(b"-"), None);
    assert_eq!(parse_signed(b""), None);
    assert_eq!(parse_signed(b"4.5"), None);
}

#[test]
fn decimal_numbers() {
    assert_eq!(parse_decimal(b"12.34"), Some(Decimal { units: 1234, scale: 100 }));
    assert_eq!(parse_decimal(b"0.00"), Some(Decimal { units: 0, scale: 100 }));
    assert_eq!(parse_decimal(b"7"), Some(Decimal { units: 7, scale: 1 }));
    assert_eq!(parse_decimal(b"350735.47"), Some(Decimal { units: 35073547, scale: 100 }));
    assert_eq!(parse_decimal(b"7."), None);
    assert_eq!(parse_decimal(b".5"), None);
    assert_eq!(parse_decimal(b"1.2.3"), None);
    assert_eq!(parse_decimal(b""), None);
    assert_eq!(parse_decimal(b"1e3"), None);
    assert_eq!(parse_decimal(b"1.000000000000000001"), None);
}

#[test]
fn finding_and_splitting() {
    assert_eq!(find_first(b"a=b=c", b"="), Some(1));
    assert_eq!(find_last(b"a=b=c", b"="), Some(3));
    assert_eq!(find_first(b"abc", b"="), None);
    assert_eq!(find_last(b"abc", b"="), None);
    assert_eq!(find_first(b"abc", b""), Some(0));
    assert_eq!(find_last(b"abc", b""), Some(3));
    assert_eq!(split_first(b"a=b=c", b"="), Some((&b"a"[..], &b"b=c"[..])));
    assert_eq!(split_last(b"a=b=c", b"="), Some((&b"a=b"[..], &b"c"[..])));
    assert_eq!(split_last(b"/usr/bin/top", b"/"), Some((&b"/usr/bin"[..], &b"top"[..])));
    assert_eq!(split_first(b"abc", b"x"), None);
    assert!(starts_with(b"cpu12", b"cpu"));
    assert!(!starts_with(b"cp", b"cpu"));
    assert_eq!(without_prefix(b"device /dev/sda", b"device "), Some(&b"/dev/sda"[..]));
    assert_eq!(without_prefix(b"devic", b"device "), None);
}
