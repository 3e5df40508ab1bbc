use hitome::sanitize::{read_to_string, read_to_string_unchecked, sanitize, scalar_len_at};

fn clean(bytes: &[u8]) -> Vec<u8> {
    let mut v = bytes.to_vec();
    sanitize(&mut v);
    v
}

#[test]
fn valid_text_stays() {
    let s = "plain, caf\u{e9}, \u{20ac}, \u{1f600}, \u{10ffff}, \u{d7ff}, \u{e000}";
    assert_eq!(clean(s.as_bytes()), s.as_bytes());
    assert_eq!(clean(b""), b"");
}

#[test]
fn stray_bytes_become_question_marks() {
    assert_eq!(clean(&[0x80]), b"?");
    assert_eq!(clean(&[b'a', 0xbf, b'b']), b"a?b");
    assert_eq!(clean(&[0xf8, 0xff, 0xfe]), b"???");
    assert_eq!(clean(&[0xc3]), b"?");
    assert_eq!(clean(&[0xc3, b'A']), b"?A");
    assert_eq!(clean(&[0xe2, 0x82]), b"??");
    assert_eq!(clean(&[0xf0, 0x9f, 0x98]), b"???");
}

#[test]
fn surrogates_become_question_marks() {
    assert_eq!(clean(&[0xed, 0xa0, 0x80]), b"???");
    assert_eq!(clean(&[b'x', 0xed, 0xbf, 0xbf, b'y']), b"x???y");
    assert_eq!(clean(&[0xed, 0x9f, 0xbf]), &[0xed, 0x9f, 0xbf]);
}

#[test]
fn numbers_past_unicode_become_question_marks() {
    assert_eq!(clean(&[0xf4, 0x90, 0x80, 0x80]), b"????");
    assert_eq!(clean(&[0xf7, 0xbf, 0xbf, 0xbf]), b"????");
    assert_eq!(clean(&[0xf4, 0x8f, 0xbf, 0xbf]), &[0xf4, 0x8f, 0xbf, 0xbf]);
}

#[test]
fn overlong_sequences_become_question_marks() {
    assert_eq!(clean(&[0xc0, 0x80]), b"??");
    assert_eq!(clean(&[0xc1, 0xbf]), b"??");
    assert_eq!(clean(&[0xe0, 0x80, 0x80]), b"???");
    assert_eq!(clean(&[0xf0, 0x80, 0x80, 0x80]), b"????");
}

#[test]
fn what_follows_a_broken_sequence_is_kept() {
    assert_eq!(clean(&[0xe2, 0xc3, 0xa9]), "?\u{e9}".as_bytes());
}

#[test]
fn the_result_is_text_of_the_same_length() {
    let mut seed: u32 = 12345;
    for round in 0..200 {
        let mut v = Vec::new();
        for _ in 0..(round % 17) {
            seed = seed.wrapping_mul(1664525).wrapping_add(1013904223);
            v.push((seed >> 24) as u8);
        }
        let out = clean(&v);
        assert_eq!(out.len(), v.len());
        assert!(String::from_utf8(out.clone()).is_ok());
        for i in 0..v.len() {
            assert!(out[i] == v[i] || out[i] == b'?');
        }
        assert_eq!(clean(&out), out);
    }
}

#[test]
fn sequence_lengths() {
    let v = "a\u{e9}\u{20ac}\u{1f600}".as_bytes().to_vec();
    assert_eq!(scalar_len_at(&v, 0), 1);
    assert_eq!(scalar_len_at(&v, 1), 2);
    assert_eq!(scalar_len_at(&v, 2), 0);
    assert_eq!(scalar_len_at(&v, 3), 3);
    assert_eq!(scalar_len_at(&v, 6), 4);
    assert_eq!(scalar_len_at(&v, 7), 0);
}

#[test]
fn reading_fills_the_buffer_anew() {
    let mut buf = b"old content".to_vec();
    assert_eq!(read_to_string(&[b'o', b'k', 0xff], &mut buf), 3);
    assert_eq!(buf, b"ok?");
    assert_eq!(read_to_string_unchecked(&[b'o', b'k', 0xff], &mut buf), 3);
    assert_eq!(buf, &[b'o', b'k', 0xff]);
}
