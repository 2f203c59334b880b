use box_report::address::AddressPair;
use box_report::line::{debug_ptr, ADDRESS_WIDTH};

fn has_fixed_shape(line: &str) -> bool {
    let bytes = line.as_bytes();
    let digit = |b: &u8| b.is_ascii_digit() || (b'a'..=b'f').contains(b);
    bytes.len() == 37
        && &bytes[0..14] == b"unique root 0x"
        && bytes[14..22].iter().all(digit)
        && &bytes[22..29] == b" box 0x"
        && bytes[29..37].iter().all(digit)
}

#[test]
fn line_names_the_handle_first_and_the_box_second() {
    assert_eq!(
        debug_ptr(0x1234, 0xabcd),
        "unique root 0x0000abcd box 0x00001234"
    );
    assert_eq!(
        debug_ptr(0x0804_a008, 0xbfff_f6e0),
        "unique root 0xbffff6e0 box 0x0804a008"
    );
}

#[test]
fn line_pads_small_addresses_with_zeros() {
    assert_eq!(debug_ptr(0, 0), "unique root 0x00000000 box 0x00000000");
    assert_eq!(debug_ptr(1, 2), "unique root 0x00000002 box 0x00000001");
    assert_eq!(debug_ptr(0xf, 0x10), "unique root 0x00000010 box 0x0000000f");
}

#[test]
fn line_uses_lowercase_digits() {
    assert_eq!(
        debug_ptr(0xABCD_EF01, 0xFEDC_BA98),
        "unique root 0xfedcba98 box 0xabcdef01"
    );
}

#[test]
fn line_at_the_edge_of_eight_digits() {
    assert_eq!(
        debug_ptr(0xffff_ffff, 0xffff_ffff),
        "unique root 0xffffffff box 0xffffffff"
    );
    assert!(has_fixed_shape(&debug_ptr(0xffff_ffff, 0x1000_0000)));
}

#[test]
fn line_grows_for_addresses_beyond_eight_digits() {
    if usize::BITS > 32 {
        let wide = 1usize << 32;
        assert_eq!(
            debug_ptr(wide, 0x10),
            "unique root 0x00000010 box 0x100000000"
        );
        assert_eq!(
            debug_ptr(0x10, wide + 0xabc),
            "unique root 0x100000abc box 0x00000010"
        );
        assert!(!has_fixed_shape(&debug_ptr(wide, 0x10)));
        assert!(!has_fixed_shape(&debug_ptr(0x10, wide)));
    }
}

#[test]
fn line_has_the_fixed_shape_for_every_narrow_address() {
    let mut value: usize = 7;
    for _ in 0..200 {
        let ptr = value & 0xffff_ffff;
        let root = (value >> 7) & 0xffff_ffff;
        let line = debug_ptr(ptr, root);
        assert!(has_fixed_shape(&line));
        assert_eq!(line, format!("unique root 0x{:08x} box 0x{:08x}", root, ptr));
        value = value.wrapping_mul(2862933555777941757).wrapping_add(3037000493);
    }
}

#[test]
fn line_agrees_with_the_standard_formatter_on_wide_addresses() {
    let mut value: usize = usize::MAX;
    for _ in 0..200 {
        let ptr = value;
        let root = value.rotate_left(13);
        assert_eq!(
            debug_ptr(ptr, root),
            format!("unique root 0x{:08x} box 0x{:08x}", root, ptr)
        );
        value = value.wrapping_mul(2862933555777941757).wrapping_add(3037000493);
    }
}

#[test]
fn address_width_is_eight() {
    assert_eq!(ADDRESS_WIDTH, 8);
}

#[test]
fn pair_line_is_the_line_of_its_addresses() {
    let pair = AddressPair::new(0xbfff_f6e0, 0x0804_a008);
    assert_eq!(pair.root, 0xbfff_f6e0);
    assert_eq!(pair.ptr, 0x0804_a008);
    assert_eq!(pair.line(), "unique root 0xbffff6e0 box 0x0804a008");
    assert_eq!(pair.line(), debug_ptr(pair.ptr, pair.root));
}
