use max7219::encoding::{base_10_bytes, bcd_byte, hex_bytes, pad_left, ssb_byte};
use max7219::encoding::{DOT, FIELD_WIDTH, UNKNOWN_GLYPH};
use max7219::{Command, DecodeMode};

/// The glyph table, written out independently of the library.
fn glyph_table() -> Vec<(u8, u8)> {
    vec![
        (b' ', 0x00),
        (b'.', 0x80),
        (b'-', 0x01),
        (b'_', 0x08),
        (b'0', 0x7E),
        (b'1', 0x30),
        (b'2', 0x6D),
        (b'3', 0x79),
        (b'4', 0x33),
        (b'5', 0x5B),
        (b'6', 0x5F),
        (b'7', 0x70),
        (b'8', 0x7F),
        (b'9', 0x7B),
        (b'a', 0x77),
        (b'A', 0x77),
        (b'b', 0x1F),
        (b'c', 0x4E),
        (b'C', 0x4E),
        (b'd', 0x3D),
        (b'e', 0x4F),
        (b'E', 0x4F),
        (b'f', 0x47),
        (b'F', 0x47),
        (b'g', 0x5E),
        (b'G', 0x5E),
        (b'h', 0x37),
        (b'H', 0x37),
        (b'i', 0x30),
        (b'I', 0x30),
        (b'j', 0x3C),
        (b'J', 0x3C),
        (b'l', 0x0E),
        (b'L', 0x0E),
        (b'n', 0x15),
        (b'N', 0x15),
        (b'o', 0x7E),
        (b'O', 0x7E),
        (b'p', 0x67),
        (b'P', 0x67),
        (b'q', 0x73),
        (b's', 0x5B),
        (b'S', 0x5B),
        (b'u', 0x3E),
        (b'U', 0x3E),
    ]
}

fn decimal(value: i32) -> Vec<u8> {
    let mut buf = [0u8; 8];
    base_10_bytes(value, &mut buf).to_vec()
}

fn hexadecimal(value: u32) -> Vec<u8> {
    let mut buf = [0u8; 8];
    hex_bytes(value, &mut buf).to_vec()
}

#[test]
fn constants_have_their_documented_values() {
    assert_eq!(UNKNOWN_GLYPH, 0b1110_0101);
    assert_eq!(DOT, 0b1000_0000);
    assert_eq!(FIELD_WIDTH, 8);
}

#[test]
fn every_glyph_of_the_table_has_its_pattern() {
    for (byte, pattern) in glyph_table() {
        assert_eq!(ssb_byte(byte, false), pattern, "byte {:?}", byte as char);
    }
}

#[test]
fn bytes_outside_the_glyph_table_show_a_question_mark() {
    let known: Vec<u8> = glyph_table().iter().map(|entry| entry.0).collect();
    let mut unknown = 0;
    for byte in 0..=255u8 {
        if !known.contains(&byte) {
            unknown += 1;
            assert_eq!(ssb_byte(byte, false), 0b1110_0101, "byte {}", byte);
            assert_eq!(ssb_byte(byte, true), 0b1110_0101, "byte {}", byte);
        }
    }
    assert_eq!(unknown, 256 - 45);
}

#[test]
fn letters_without_a_glyph_show_a_question_mark() {
    for byte in *b"kKmMrRtTvVwWxXyYzZBDQ" {
        assert_eq!(ssb_byte(byte, false), UNKNOWN_GLYPH, "byte {:?}", byte as char);
    }
}

#[test]
fn dot_flag_lights_the_decimal_point_and_nothing_else() {
    for byte in 0..=255u8 {
        assert_eq!(ssb_byte(byte, true), ssb_byte(byte, false) | 0x80);
        assert_eq!(ssb_byte(byte, true) & 0x7F, ssb_byte(byte, false) & 0x7F);
    }
    assert_eq!(ssb_byte(b'8', true), 0xFF);
    assert_eq!(ssb_byte(b' ', true), 0x80);
}

#[test]
fn glyphs_other_than_the_point_leave_the_point_dark() {
    for (byte, _) in glyph_table() {
        if byte != b'.' {
            assert_eq!(ssb_byte(byte, false) & 0x80, 0, "byte {:?}", byte as char);
        }
    }
}

#[test]
fn encoding_is_a_function_of_its_arguments() {
    for byte in 0..=255u8 {
        for dot in [false, true] {
            assert_eq!(ssb_byte(byte, dot), ssb_byte(byte, dot));
        }
        assert_eq!(bcd_byte(byte), bcd_byte(byte));
    }
}

#[test]
fn code_b_table_has_its_codes() {
    assert_eq!(bcd_byte(b' '), 0b0000_1111);
    assert_eq!(bcd_byte(b'-'), 0b0000_1010);
    assert_eq!(bcd_byte(b'e'), 0b0000_1011);
    assert_eq!(bcd_byte(b'E'), 0b1000_1011);
    assert_eq!(bcd_byte(b'h'), 0b0000_1100);
    assert_eq!(bcd_byte(b'H'), 0b1000_1100);
    assert_eq!(bcd_byte(b'l'), 0b0000_1101);
    assert_eq!(bcd_byte(b'L'), 0b1000_1101);
    assert_eq!(bcd_byte(b'p'), 0b0000_1110);
    assert_eq!(bcd_byte(b'P'), 0b1000_1110);
}

#[test]
fn code_b_upper_case_is_lower_case_with_the_point() {
    for lower in *b"ehlp" {
        let upper = lower.to_ascii_uppercase();
        assert_eq!(bcd_byte(upper), bcd_byte(lower) | 0x80);
        assert_eq!(bcd_byte(lower) & 0x80, 0);
    }
}

#[test]
fn code_b_passes_other_bytes_through() {
    let table = *b" -eEhHlLpP";
    for byte in 0..=255u8 {
        if !table.contains(&byte) {
            assert_eq!(bcd_byte(byte), byte);
        }
    }
}

#[test]
fn code_b_digits_carry_their_value_in_the_low_nibble() {
    for value in 0..10u8 {
        let code = bcd_byte(b'0' + value);
        assert_eq!(code & 0x0F, value);
        assert_eq!(code & 0x80, 0);
    }
}

#[test]
fn zero_is_formatted_as_one_digit() {
    assert_eq!(decimal(0), b"0".to_vec());
    assert_eq!(&pad_left(&decimal(0)), b"       0");
}

#[test]
fn negative_value_is_formatted_with_its_sign() {
    assert_eq!(decimal(-5), b"-5".to_vec());
    assert_eq!(&pad_left(&decimal(-5)), b"      -5");
}

#[test]
fn decimal_text_has_no_leading_zeros() {
    assert_eq!(decimal(7), b"7".to_vec());
    assert_eq!(decimal(10), b"10".to_vec());
    assert_eq!(decimal(100), b"100".to_vec());
    assert_eq!(decimal(12345), b"12345".to_vec());
    assert_eq!(decimal(-12345), b"-12345".to_vec());
    assert_eq!(decimal(1_000_000), b"1000000".to_vec());
    assert_eq!(decimal(90_909_090), b"90909090".to_vec());
}

#[test]
fn widest_values_that_fit_are_formatted_as_numbers() {
    assert_eq!(decimal(99_999_999), b"99999999".to_vec());
    assert_eq!(decimal(-9_999_999), b"-9999999".to_vec());
    assert_eq!(&pad_left(&decimal(99_999_999)), b"99999999");
    assert_eq!(&pad_left(&decimal(-9_999_999)), b"-9999999");
}

#[test]
fn values_wider_than_the_field_are_formatted_as_err() {
    assert_eq!(decimal(100_000_000), b"Err".to_vec());
    assert_eq!(decimal(-10_000_000), b"Err".to_vec());
    assert_eq!(decimal(i32::MAX), b"Err".to_vec());
    assert_eq!(decimal(i32::MIN), b"Err".to_vec());
    assert_eq!(&pad_left(&decimal(i32::MIN)), b"     Err");
}

#[test]
fn decimal_text_agrees_with_the_standard_library() {
    let samples = [
        1, 9, 10, 11, 99, 101, 999, 1000, 54321, 999_999, 9_999_999, 10_000_000, 12_345_678,
    ];
    for value in samples {
        assert_eq!(decimal(value), format!("{}", value).into_bytes());
        if value <= 9_999_999 {
            assert_eq!(decimal(-value), format!("{}", -value).into_bytes());
        }
    }
}

#[test]
fn hexadecimal_text_is_lower_case_without_leading_zeros() {
    assert_eq!(hexadecimal(0), b"0".to_vec());
    assert_eq!(hexadecimal(9), b"9".to_vec());
    assert_eq!(hexadecimal(10), b"a".to_vec());
    assert_eq!(hexadecimal(15), b"f".to_vec());
    assert_eq!(hexadecimal(16), b"10".to_vec());
    assert_eq!(hexadecimal(255), b"ff".to_vec());
    assert_eq!(hexadecimal(0xABC), b"abc".to_vec());
    assert_eq!(hexadecimal(0xDEAD_BEEF), b"deadbeef".to_vec());
    assert_eq!(hexadecimal(u32::MAX), b"ffffffff".to_vec());
    assert_eq!(hexadecimal(0x1000_0000), b"10000000".to_vec());
}

#[test]
fn hexadecimal_text_agrees_with_the_standard_library() {
    for value in [1u32, 0x10, 0x123, 0xFFFF, 0x1_0000, 0x0BAD_F00D, 0x7FFF_FFFF] {
        assert_eq!(hexadecimal(value), format!("{:x}", value).into_bytes());
    }
}

#[test]
fn formatting_does_not_depend_on_what_the_buffer_held() {
    let mut clean = [0u8; 8];
    let mut dirty = [0xAAu8; 8];
    assert_eq!(base_10_bytes(-42, &mut clean), base_10_bytes(-42, &mut dirty));
    let mut clean = [0u8; 8];
    let mut dirty = [0xAAu8; 8];
    assert_eq!(hex_bytes(0xBEEF, &mut clean), hex_bytes(0xBEEF, &mut dirty));
}

#[test]
fn formatting_leaves_the_rest_of_the_buffer_as_it_was() {
    let mut buf = [0xAAu8; 8];
    assert_eq!(base_10_bytes(-42, &mut buf), b"-42");
    assert_eq!(buf, [b'-', b'4', b'2', 0xAA, 0xAA, 0xAA, 0xAA, 0xAA]);
    let mut buf = [0xAAu8; 8];
    assert_eq!(base_10_bytes(i32::MAX, &mut buf), b"Err");
    assert_eq!(buf, [b'E', b'r', b'r', 0xAA, 0xAA, 0xAA, 0xAA, 0xAA]);
    let mut buf = [0xAAu8; 8];
    assert_eq!(hex_bytes(0x1F, &mut buf), b"1f");
    assert_eq!(buf, [b'1', b'f', 0xAA, 0xAA, 0xAA, 0xAA, 0xAA, 0xAA]);
}

#[test]
fn pad_left_right_justifies() {
    assert_eq!(&pad_left(b""), b"        ");
    assert_eq!(&pad_left(b"0"), b"       0");
    assert_eq!(&pad_left(b"-5"), b"      -5");
    assert_eq!(&pad_left(b"Err"), b"     Err");
    assert_eq!(&pad_left(b"1234567"), b" 1234567");
    assert_eq!(&pad_left(b"12345678"), b"12345678");
}

#[test]
fn register_addresses_are_those_of_the_chip() {
    assert_eq!(Command::Noop.code(), 0x00);
    assert_eq!(Command::Digit0.code(), 0x01);
    assert_eq!(Command::Digit1.code(), 0x02);
    assert_eq!(Command::Digit2.code(), 0x03);
    assert_eq!(Command::Digit3.code(), 0x04);
    assert_eq!(Command::Digit4.code(), 0x05);
    assert_eq!(Command::Digit5.code(), 0x06);
    assert_eq!(Command::Digit6.code(), 0x07);
    assert_eq!(Command::Digit7.code(), 0x08);
    assert_eq!(Command::DecodeMode.code(), 0x09);
    assert_eq!(Command::Intensity.code(), 0x0A);
    assert_eq!(Command::ScanLimit.code(), 0x0B);
    assert_eq!(Command::Power.code(), 0x0C);
    assert_eq!(Command::DisplayTest.code(), 0x0F);
}

#[test]
fn decode_modes_have_one_bit_for_each_decoded_digit() {
    assert_eq!(DecodeMode::NoDecode.code(), 0x00);
    assert_eq!(DecodeMode::CodeBDigit0.code(), 0x01);
    assert_eq!(DecodeMode::CodeBDigits3_0.code(), 0x0F);
    assert_eq!(DecodeMode::CodeBDigits7_0.code(), 0xFF);
}
