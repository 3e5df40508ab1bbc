use hitome::common::{
    Bytes, Heading, MaybeSmart, Newline, Percentage, Quantity, Settings, Threshold, Watts,
};
use hitome::decimal::{push_digits, push_fixed, rounded_quotient};
use hitome::text::{clip_len, count_chars, push_fitted, push_padded, Align};

fn text(v: Vec<u8>) -> String {
    String::from_utf8(v).unwrap()
}

fn plain() -> Settings {
    Settings::default()
}

fn smart() -> Settings {
    Settings { smart: true, ..Settings::default() }
}

#[test]
fn bytes_zero_is_a_point() {
    assert_eq!(text(Bytes(0).format(8, 2)), "       .");
    assert_eq!(text(Bytes(0).format(10, 2)), "         .");
}

#[test]
fn bytes_in_kib() {
    assert_eq!(text(Bytes(1500).format(8, 2)), "   1.46K");
    assert_eq!(text(Bytes(1024).format(8, 2)), "   1.00K");
    assert_eq!(text(Bytes(1).format(8, 2)), "   0.00K");
}

#[test]
fn bytes_ties_go_to_the_even_digit() {
    assert_eq!(text(Bytes(128).format(8, 2)), "   0.12K");
    assert_eq!(text(Bytes(384).format(8, 2)), "   0.38K");
}

#[test]
fn bytes_pick_the_unit_by_the_threshold() {
    // four digits before the point fit: ten thousand of a unit go to the next
    assert_eq!(text(Bytes(10000 * 1024 - 1024).format(8, 2)), "9999.00K");
    assert_eq!(text(Bytes(10000 * 1024).format(8, 2)), "   9.77M");
    assert_eq!(text(Bytes(10000 * 1024 * 1024).format(8, 2)), "   9.77G");
    assert_eq!(text(Bytes(10000 * 1024 * 1024 * 1024).format(8, 2)), "   9.77T");
    // three digits before the point fit: one thousand of a unit go to the next
    assert_eq!(text(Bytes(999 * 1024).format(7, 2)), "999.00K");
    assert_eq!(text(Bytes(1000 * 1024).format(7, 2)), "  0.98M");
}

#[test]
fn bytes_without_digits_after_the_point() {
    assert_eq!(text(Bytes(8 * 1024 * 1024 * 1024).format(6, 0)), " 8192M");
    assert_eq!(text(Bytes(1536).format(6, 0)), "    2K");
    assert_eq!(text(Bytes(2560).format(6, 0)), "    2K");
}

#[test]
fn bytes_fill_their_field() {
    for &(width, precision) in [(8usize, 2usize), (10, 2), (6, 0), (12, 4), (9, 3)].iter() {
        for &n in [0u64, 1, 1023, 1024, 123456, 9_000_000, 77_000_000_000, 5_000_000_000_000].iter()
        {
            assert_eq!(Bytes(n).format(width, precision).len(), width, "{} {} {}", n, width, precision);
        }
    }
}

#[test]
fn bytes_go_to_the_next_unit_when_rounding_adds_a_digit() {
    assert_eq!(text(Bytes(10_239_999).format(8, 2)), "   9.77M");
    assert_eq!(text(Bytes(10_239_994).format(8, 2)), "9999.99K");
    assert_eq!(text(Bytes(10_239_995).format(8, 2)), "   9.77M");
    assert_eq!(text(Bytes(10000 * 1024 * 1024 - 1).format(8, 2)), "   9.77G");
    assert_eq!(text(Bytes(1023).format(4, 0)), "  1K");
    assert_eq!(text(Bytes(1024 * 1000 - 513).format(4, 0)), "999K");
    assert_eq!(text(Bytes(1024 * 1000 - 512).format(4, 0)), "  1M");
}

#[test]
fn bytes_have_as_many_digits_as_their_field_has_room_for() {
    // two digits before the point
    assert_eq!(text(Bytes(99 * 1024).format(6, 2)), "99.00K");
    assert_eq!(text(Bytes(512_000).format(6, 2)), " 0.49M");
    assert_eq!(text(Bytes(100 * 1024).format(6, 2)), " 0.10M");
    // three
    assert_eq!(text(Bytes(999 * 1024).format(7, 2)), "999.00K");
    // four, and no more in a wider field
    assert_eq!(text(Bytes(9999 * 1024).format(12, 2)), "    9999.00K");
    assert_eq!(text(Bytes(10000 * 1024).format(12, 2)), "       9.77M");
    // one
    assert_eq!(text(Bytes(9 * 1024).format(5, 2)), "9.00K");
    assert_eq!(text(Bytes(10 * 1024).format(5, 2)), "0.01M");
    // no room for any: three, and the field overflows
    assert_eq!(text(Bytes(999 * 1024).format(4, 2)), "999.00K");
    assert_eq!(text(Bytes(1000 * 1024).format(4, 2)), "0.98M");
    assert_eq!(text(Bytes(999 * 1024).format(0, 0)), "999K");
    assert_eq!(text(Bytes(1000 * 1024).format(0, 0)), "1M");
}

#[test]
fn bytes_that_are_too_many_for_the_largest_unit_overflow_their_field() {
    assert_eq!(text(Bytes(u64::MAX).format(8, 2)), "16777216.00T");
    assert_eq!(text(Bytes(9999 << 40).format(8, 2)), "9999.00T");
    assert_eq!(text(Bytes(10000 << 40).format(8, 2)), "10000.00T");
}

#[test]
fn bytes_fill_every_field_that_is_wide_enough() {
    let counts = [
        0u64, 1, 5, 511, 512, 1023, 1024, 99 * 1024, 100 * 1024 - 1, 512_000, 1024 * 1000 - 512,
        10_239_994, 10_239_995, 10_239_999, 10000 * 1024, 1 << 30, (1 << 40) - 1, 9 << 40,
    ];
    for precision in 0usize..6 {
        for width in precision + 4..precision + 10 {
            for &n in counts.iter() {
                let out = Bytes(n).format(width, precision);
                assert_eq!(out.len(), width, "{} {} {}", n, width, precision);
                if n == 0 {
                    assert_eq!(out[width - 1], b'.');
                } else {
                    assert!(b"KMGT".contains(&out[width - 1]));
                }
            }
        }
    }
}

#[test]
fn watts_are_whole() {
    assert_eq!(text(Watts(135).format(6, 0)), "  135W");
    assert_eq!(text(Watts(0).format(6, 2)), "    0W");
}

#[test]
fn percentages_are_quotients() {
    assert_eq!(text(Percentage { part: 1, whole: 3 }.format(8, 2)), "  33.33%");
    assert_eq!(text(Percentage { part: 1, whole: 1 }.format(8, 2)), " 100.00%");
    assert_eq!(text(Percentage { part: 2, whole: 3 }.format(4, 0)), " 67%");
    assert_eq!(text(Percentage { part: 1234, whole: 10000 }.format(8, 2)), "  12.34%");
    assert_eq!(text(Percentage::zero().format(8, 2)), "   0.00%");
    assert_eq!(text(Percentage::of_hundred(50).format(8, 1)), "   50.0%");
}

#[test]
fn percentages_compare_by_cross_multiplication() {
    let third = Percentage { part: 1, whole: 3 };
    let half = Percentage { part: 50, whole: 100 };
    assert!(third.is_below(&half));
    assert!(!half.is_below(&third));
    assert!(!half.is_below(&Percentage { part: 1, whole: 2 }));
}

#[test]
fn thresholds_colour_by_the_highest_level_reached() {
    let s = smart();
    let levels = |v: u64| Threshold { val: Watts(v), med: Watts(10), high: Watts(20), crit: Watts(30) };
    assert_eq!(text(MaybeSmart(levels(9), &s).format(5, 0)), "   9W");
    assert_eq!(text(MaybeSmart(levels(10), &s).format(5, 0)), "\x1B[1;93m  10W\x1B[0m");
    assert_eq!(text(MaybeSmart(levels(19), &s).format(5, 0)), "\x1B[1;93m  19W\x1B[0m");
    assert_eq!(text(MaybeSmart(levels(20), &s).format(5, 0)), "\x1B[1;91m  20W\x1B[0m");
    assert_eq!(text(MaybeSmart(levels(30), &s).format(5, 0)), "\x1B[1;95m  30W\x1B[0m");
    assert_eq!(text(MaybeSmart(levels(1000), &s).format(5, 0)), "\x1B[1;95m1000W\x1B[0m");
}

#[test]
fn thresholds_are_plain_on_a_dumb_terminal() {
    let s = plain();
    let t = Threshold { val: Watts(99), med: Watts(10), high: Watts(20), crit: Watts(30) };
    assert_eq!(text(MaybeSmart(t, &s).format(5, 0)), "  99W");
}

#[test]
fn severity_grows_with_the_value() {
    let mut last = 0u8;
    for v in 0..50u64 {
        let t = Threshold { val: Bytes(v), med: Bytes(10), high: Bytes(20), crit: Bytes(30) };
        let level = t.level();
        assert!(level >= last);
        last = level;
    }
    assert_eq!(last, 3);
}

#[test]
fn levels_need_not_ascend() {
    // with all levels at zero, every value is critical
    let t = Threshold { val: Bytes(0), med: Bytes(0), high: Bytes(0), crit: Bytes(0) };
    assert_eq!(t.level(), 3);
    let t = Threshold { val: Bytes(0), med: Bytes(0), high: Bytes(0), crit: Bytes(1) };
    assert_eq!(t.level(), 2);
    let t = Threshold { val: Bytes(0), med: Bytes(0), high: Bytes(1), crit: Bytes(1) };
    assert_eq!(t.level(), 1);
}

#[test]
fn headings_are_bold_when_smart() {
    let p = plain();
    let s = smart();
    assert_eq!(text(MaybeSmart(Heading("ACTIVE"), &p).format(10, 10, Align::Right)), "    ACTIVE");
    assert_eq!(text(MaybeSmart(Heading("ACTIVE"), &p).format(10, 10, Align::Left)), "ACTIVE    ");
    assert_eq!(text(MaybeSmart(Heading("ACTIVE"), &p).format(10, 10, Align::Center)), "  ACTIVE  ");
    assert_eq!(text(MaybeSmart(Heading("COMMAND"), &p).format(4, 4, Align::Right)), "COMM");
    assert_eq!(
        text(MaybeSmart(Heading("ACTIVE"), &s).format(10, 10, Align::Right)),
        "\x1B[1m    ACTIVE\x1B[0m"
    );
}

#[test]
fn newlines_erase_the_line_when_smart() {
    assert_eq!(text(MaybeSmart(Newline(), &plain()).format()), "\n");
    assert_eq!(text(MaybeSmart(Newline(), &smart()).format()), "\x1B[0K\n");
}

#[test]
fn widths_count_characters() {
    let name = "caf\u{e9}".as_bytes();
    assert_eq!(name.len(), 5);
    assert_eq!(count_chars(name), 4);
    let mut out = Vec::new();
    push_padded(&mut out, name, 6, Align::Right);
    assert_eq!(text(out), "  caf\u{e9}");
    assert_eq!(clip_len(name, 3), 3);
    assert_eq!(clip_len(name, 4), 5);
    assert_eq!(clip_len("\u{e9}t\u{e9}".as_bytes(), 2), 3);
    let mut out = Vec::new();
    push_fitted(&mut out, "\u{e9}t\u{e9}".as_bytes(), 4, Some(2), Align::Left);
    assert_eq!(text(out), "\u{e9}t  ");
}

#[test]
fn padding_leaves_long_text_alone() {
    let mut out = Vec::new();
    push_padded(&mut out, b"abcdef", 3, Align::Right);
    assert_eq!(text(out), "abcdef");
    let mut out = Vec::new();
    push_fitted(&mut out, b"abcdef", 3, None, Align::Right);
    assert_eq!(text(out), "abcdef");
    let mut out = Vec::new();
    push_fitted(&mut out, b"abcdef", 3, Some(3), Align::Right);
    assert_eq!(text(out), "abc");
}

#[test]
fn numbers_in_decimal_notation() {
    let mut out = Vec::new();
    push_digits(&mut out, 0);
    push_digits(&mut out, 1234567890);
    assert_eq!(text(out), "01234567890");
    let mut out = Vec::new();
    push_fixed(&mut out, 1, 8, 3);
    assert_eq!(text(out), "0.125");
    let mut out = Vec::new();
    push_fixed(&mut out, 1, 8, 2);
    assert_eq!(text(out), "0.12");
    let mut out = Vec::new();
    push_fixed(&mut out, 3, 8, 2);
    assert_eq!(text(out), "0.38");
    let mut out = Vec::new();
    push_fixed(&mut out, 1999, 1000, 0);
    assert_eq!(text(out), "2");
    let mut out = Vec::new();
    push_fixed(&mut out, 5, 1000, 2);
    assert_eq!(text(out), "0.00");
    let mut out = Vec::new();
    push_fixed(&mut out, 15, 1000, 2);
    assert_eq!(text(out), "0.02");
    let mut out = Vec::new();
    push_fixed(&mut out, 7, 2, 17);
    assert_eq!(text(out), "3.50000000000000000");
}

#[test]
fn quotients_round_to_the_nearest_and_ties_to_even() {
    assert_eq!(rounded_quotient(7, 2), 4);
    assert_eq!(rounded_quotient(5, 2), 2);
    assert_eq!(rounded_quotient(8, 3), 3);
    assert_eq!(rounded_quotient(7, 3), 2);
    assert_eq!(rounded_quotient(0, 5), 0);
    assert_eq!(rounded_quotient(u128::MAX, 1), u128::MAX);
}
