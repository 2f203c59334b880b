use box_report::hex::{hex_len, push_hex, push_hex_padded, to_hex};

#[test]
fn zero_is_one_digit() {
    assert_eq!(to_hex(0, 0), "0");
    assert_eq!(to_hex(0, 1), "0");
    assert_eq!(hex_len(0), 1);
}

#[test]
fn single_digits_cover_the_alphabet() {
    let expected = [
        "0", "1", "2", "3", "4", "5", "6", "7", "8", "9", "a", "b", "c", "d", "e", "f",
    ];
    for (value, digit) in expected.iter().enumerate() {
        assert_eq!(to_hex(value, 1), *digit);
    }
}

#[test]
fn digits_run_most_significant_first() {
    assert_eq!(to_hex(0x10, 0), "10");
    assert_eq!(to_hex(0xff, 0), "ff");
    assert_eq!(to_hex(0x1234, 0), "1234");
    assert_eq!(to_hex(0xdeadbeef, 0), "deadbeef");
    assert_eq!(to_hex(0x9abcdef, 0), "9abcdef");
}

#[test]
fn padding_fills_up_to_the_width() {
    assert_eq!(to_hex(0, 8), "00000000");
    assert_eq!(to_hex(1, 8), "00000001");
    assert_eq!(to_hex(0xabc, 8), "00000abc");
    assert_eq!(to_hex(0xabc, 4), "0abc");
    assert_eq!(to_hex(0x7fff_ffff, 8), "7fffffff");
    assert_eq!(to_hex(0xffff_ffff, 8), "ffffffff");
}

#[test]
fn padding_never_cuts_digits() {
    assert_eq!(to_hex(0xabcde, 3), "abcde");
    assert_eq!(to_hex(0xabcde, 5), "abcde");
    assert_eq!(to_hex(usize::MAX, 2), format!("{:x}", usize::MAX));
    assert_eq!(to_hex(usize::MAX, 8), format!("{:08x}", usize::MAX));
}

#[test]
fn length_counts_digits() {
    assert_eq!(hex_len(0xf), 1);
    assert_eq!(hex_len(0x10), 2);
    assert_eq!(hex_len(0xff), 2);
    assert_eq!(hex_len(0x100), 3);
    assert_eq!(hex_len(0xffff_ffff), 8);
    assert_eq!(hex_len(usize::MAX), format!("{:x}", usize::MAX).len());
}

#[test]
fn rendering_agrees_with_the_standard_formatter() {
    let mut value: usize = 1;
    for round in 0..200usize {
        for width in [0usize, 1, 4, 8, 12, 20] {
            assert_eq!(to_hex(value, width), format!("{:0w$x}", value, w = width));
        }
        assert_eq!(hex_len(value), format!("{:x}", value).len());
        value = value.wrapping_mul(6364136223846793005).wrapping_add(round | 1);
    }
}

#[test]
fn pushing_appends_to_what_is_there() {
    let mut text = String::from("at ");
    push_hex(&mut text, 0x2a);
    assert_eq!(text, "at 2a");
    push_hex_padded(&mut text, 0x2a, 4);
    assert_eq!(text, "at 2a002a");
    push_hex_padded(&mut text, 0x12345, 4);
    assert_eq!(text, "at 2a002a12345");
}

#[test]
fn digits_read_back_as_the_number() {
    for value in [0usize, 9, 10, 15, 16, 255, 4096, 0x8000_0000, usize::MAX] {
        let text = to_hex(value, 8);
        assert_eq!(usize::from_str_radix(&text, 16), Ok(value));
    }
}
