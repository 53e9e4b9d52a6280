//! Character encodings for the digit registers and fixed-width number formatting.
//!
//! Everything here is a pure function of its arguments: a byte is mapped to the
//! segment pattern or Code-B code that shows it, and a number to the ASCII text
//! that is then laid out in the eight-character field of one display.

use vstd::prelude::*;
use vstd::slice::slice_subrange;

verus! {

/// Number of digit positions of one display, and width of a formatted field.
pub const FIELD_WIDTH: usize = 8;

/// Segment pattern shown for a byte that has no glyph of its own: a question mark.
pub const UNKNOWN_GLYPH: u8 = 0b1110_0101;

/// The decimal-point segment, which is the highest bit of a digit register.
pub const DOT: u8 = 0b1000_0000;

/// The seven-segment glyph table: the segment pattern of every byte that has one.
///
/// Bit 6 down to bit 0 drive the segments A to G; bit 7 is the decimal point.
pub open spec fn glyph(b: u8) -> Option<u8> {
    match b as char {
        ' ' => Some(0b0000_0000u8),
        '.' => Some(0b1000_0000u8),
        '-' => Some(0b0000_0001u8),
        '_' => Some(0b0000_1000u8),
        '0' => Some(0b0111_1110u8),
        '1' => Some(0b0011_0000u8),
        '2' => Some(0b0110_1101u8),
        '3' => Some(0b0111_1001u8),
        '4' => Some(0b0011_0011u8),
        '5' => Some(0b0101_1011u8),
        '6' => Some(0b0101_1111u8),
        '7' => Some(0b0111_0000u8),
        '8' => Some(0b0111_1111u8),
        '9' => Some(0b0111_1011u8),
        'a' | 'A' => Some(0b0111_0111u8),
        'b' => Some(0b0001_1111u8),
        'c' | 'C' => Some(0b0100_1110u8),
        'd' => Some(0b0011_1101u8),
        'e' | 'E' => Some(0b0100_1111u8),
        'f' | 'F' => Some(0b0100_0111u8),
        'g' | 'G' => Some(0b0101_1110u8),
        'h' | 'H' => Some(0b0011_0111u8),
        'i' | 'I' => Some(0b0011_0000u8),
        'j' | 'J' => Some(0b0011_1100u8),
        'l' | 'L' => Some(0b0000_1110u8),
        'n' | 'N' => Some(0b0001_0101u8),
        'o' | 'O' => Some(0b0111_1110u8),
        'p' | 'P' => Some(0b0110_0111u8),
        'q' => Some(0b0111_0011u8),
        's' | 'S' => Some(0b0101_1011u8),
        'u' | 'U' => Some(0b0011_1110u8),
        _ => None,
    }
}

/// The segment pattern that shows byte `b`, with the decimal point lit when `dot` is set.
pub open spec fn segments(b: u8, dot: bool) -> u8 {
    let base = match glyph(b) {
        Some(pattern) => pattern,
        None => UNKNOWN_GLYPH,
    };
    if dot {
        base | DOT
    } else {
        base
    }
}

/// The Code-B table: the register value that makes the chip's own decoder show byte `b`.
///
/// The decoder reads the low nibble (0 to 9 are the digits, then dash, E, H, L, P and
/// blank) and bit 7, the decimal point. A byte outside the table passes through
/// unchanged, so that an ASCII digit selects its own value by its low nibble.
pub open spec fn code_b(b: u8) -> u8 {
    match b as char {
        ' ' => 0b0000_1111u8,
        '-' => 0b0000_1010u8,
        'e' => 0b0000_1011u8,
        'E' => 0b1000_1011u8,
        'h' => 0b0000_1100u8,
        'H' => 0b1000_1100u8,
        'l' => 0b0000_1101u8,
        'L' => 0b1000_1101u8,
        'p' => 0b0000_1110u8,
        'P' => 0b1000_1110u8,
        _ => b,
    }
}

/// Whether `b` is one of the bytes that the Code-B table holds.
pub open spec fn in_code_b_table(b: u8) -> bool {
    b == ' ' as u8 || b == '-' as u8 || b == 'e' as u8 || b == 'E' as u8 || b == 'h' as u8 || b
        == 'H' as u8 || b == 'l' as u8 || b == 'L' as u8 || b == 'p' as u8 || b == 'P' as u8
}

/// The Code-B register value that shows an ASCII byte.
pub fn bcd_byte(b: u8) -> (r: u8)
    ensures
        r == code_b(b),
{
    match b as char {
        ' ' => 0b0000_1111,
        '-' => 0b0000_1010,
        'e' => 0b0000_1011,
        'E' => 0b1000_1011,
        'h' => 0b0000_1100,
        'H' => 0b1000_1100,
        'l' => 0b0000_1101,
        'L' => 0b1000_1101,
        'p' => 0b0000_1110,
        'P' => 0b1000_1110,
        _ => b,
    }
}

/// The segment pattern that shows an ASCII byte, with or without the decimal point.
pub fn ssb_byte(b: u8, dot: bool) -> (r: u8)
    ensures
        r == segments(b, dot),
{
    let base: u8 = match b as char {
        ' ' => 0b0000_0000,
        '.' => 0b1000_0000,
        '-' => 0b0000_0001,
        '_' => 0b0000_1000,
        '0' => 0b0111_1110,
        '1' => 0b0011_0000,
        '2' => 0b0110_1101,
        '3' => 0b0111_1001,
        '4' => 0b0011_0011,
        '5' => 0b0101_1011,
        '6' => 0b0101_1111,
        '7' => 0b0111_0000,
        '8' => 0b0111_1111,
        '9' => 0b0111_1011,
        'a' | 'A' => 0b0111_0111,
        'b' => 0b0001_1111,
        'c' | 'C' => 0b0100_1110,
        'd' => 0b0011_1101,
        'e' | 'E' => 0b0100_1111,
        'f' | 'F' => 0b0100_0111,
        'g' | 'G' => 0b0101_1110,
        'h' | 'H' => 0b0011_0111,
        'i' | 'I' => 0b0011_0000,
        'j' | 'J' => 0b0011_1100,
        'l' | 'L' => 0b0000_1110,
        'n' | 'N' => 0b0001_0101,
        'o' | 'O' => 0b0111_1110,
        'p' | 'P' => 0b0110_0111,
        'q' => 0b0111_0011,
        's' | 'S' => 0b0101_1011,
        'u' | 'U' => 0b0011_1110,
        _ => UNKNOWN_GLYPH,
    };
    if dot {
        base | DOT
    } else {
        base
    }
}

/// The ASCII character of one digit value below sixteen: `0` to `9`, then `a` to `f`.
pub open spec fn digit_char(d: int) -> u8 {
    if d < 10 {
        ('0' as u8 + d) as u8
    } else {
        ('a' as u8 + d - 10) as u8
    }
}

/// The decimal digits of `n`, most significant first, without leading zeros.
pub open spec fn decimal(n: nat) -> Seq<u8>
    decreases n,
{
    if n < 10 {
        seq![digit_char(n as int)]
    } else {
        decimal(n / 10).push(digit_char((n % 10) as int))
    }
}

/// The hexadecimal digits of `n` in lower case, most significant first, without
/// leading zeros.
pub open spec fn hexadecimal(n: nat) -> Seq<u8>
    decreases n,
{
    if n < 16 {
        seq![digit_char(n as int)]
    } else {
        hexadecimal(n / 16).push(digit_char((n % 16) as int))
    }
}

/// The decimal text of `v`: a minus sign for a negative value, then its digits.
pub open spec fn signed_decimal(v: int) -> Seq<u8> {
    if v < 0 {
        seq!['-' as u8] + decimal((-v) as nat)
    } else {
        decimal(v as nat)
    }
}

/// The text shown in place of a number that does not fit the field.
pub open spec fn overflow_text() -> Seq<u8> {
    seq!['E' as u8, 'r' as u8, 'r' as u8]
}

/// What a signed value is formatted to: its decimal text where that fits the field,
/// sign included, and the overflow text where it does not.
pub open spec fn integer_text(v: int) -> Seq<u8> {
    if signed_decimal(v).len() <= FIELD_WIDTH {
        signed_decimal(v)
    } else {
        overflow_text()
    }
}

/// What an unsigned value is formatted to in hexadecimal: its lower-case digits.
pub open spec fn hex_text(v: nat) -> Seq<u8> {
    hexadecimal(v)
}

/// `text` right-justified in a field of eight characters, padded with spaces on the left.
pub open spec fn right_justified(text: Seq<u8>) -> Seq<u8>
    recommends
        text.len() <= FIELD_WIDTH,
{
    Seq::new((FIELD_WIDTH - text.len()) as nat, |i: int| ' ' as u8) + text
}

/// How many decimal digits a number below ten thousand million has.
pub proof fn lemma_decimal_len(n: nat)
    requires
        n < 10_000_000_000,
    ensures
        decimal(n).len() == if n < 10 {
            1nat
        } else if n < 100 {
            2nat
        } else if n < 1_000 {
            3nat
        } else if n < 10_000 {
            4nat
        } else if n < 100_000 {
            5nat
        } else if n < 1_000_000 {
            6nat
        } else if n < 10_000_000 {
            7nat
        } else if n < 100_000_000 {
            8nat
        } else if n < 1_000_000_000 {
            9nat
        } else {
            10nat
        },
{
    reveal_with_fuel(decimal, 11);
}

/// A signed value is formatted as a number exactly when it lies between
/// -9 999 999 and 99 999 999, and as the overflow text otherwise.
pub proof fn lemma_integer_text_range(v: int)
    requires
        i32::MIN <= v <= i32::MAX,
    ensures
        -9_999_999 <= v <= 99_999_999 ==> integer_text(v) == signed_decimal(v),
        !(-9_999_999 <= v <= 99_999_999) ==> integer_text(v) == overflow_text(),
        integer_text(v).len() <= FIELD_WIDTH,
{
    let magnitude: nat = if v < 0 {
        (-v) as nat
    } else {
        v as nat
    };
    lemma_decimal_len(magnitude);
}

/// How many hexadecimal digits a value of thirty-two bits has: eight at most.
pub proof fn lemma_hexadecimal_len(n: nat)
    requires
        n <= u32::MAX,
    ensures
        hexadecimal(n).len() == if n < 0x10 {
            1nat
        } else if n < 0x100 {
            2nat
        } else if n < 0x1000 {
            3nat
        } else if n < 0x1_0000 {
            4nat
        } else if n < 0x10_0000 {
            5nat
        } else if n < 0x100_0000 {
            6nat
        } else if n < 0x1000_0000 {
            7nat
        } else {
            8nat
        },
{
    reveal_with_fuel(hexadecimal, 9);
}

/// The ASCII character of digit value `d`, which is below sixteen.
fn digit_byte(d: u32) -> (c: u8)
    requires
        d < 16,
    ensures
        c == digit_char(d as int),
{
    if d < 10 {
        '0' as u8 + d as u8
    } else {
        'a' as u8 + (d - 10) as u8
    }
}

/// Writes the decimal digits of `n` into `buf` from index `start` on and returns the
/// index behind the last digit.
fn write_decimal(n: u32, buf: &mut [u8; 8], start: usize) -> (end: usize)
    requires
        start + decimal(n as nat).len() <= FIELD_WIDTH,
    ensures
        end == start + decimal(n as nat).len(),
        final(buf)@.subrange(start as int, end as int) == decimal(n as nat),
        final(buf)@.take(start as int) == old(buf)@.take(start as int),
        final(buf)@.skip(end as int) == old(buf)@.skip(end as int),
{
    let mut count: usize = 1;
    let mut rest: u32 = n;
    while rest >= 10
        invariant
            count >= 1,
            decimal(n as nat).len() == decimal(rest as nat).len() + count - 1,
            start + decimal(n as nat).len() <= FIELD_WIDTH,
        decreases rest,
    {
        rest = rest / 10;
        count = count + 1;
    }
    let end: usize = start + count;
    let mut pos: usize = end;
    rest = n;
    while rest >= 10
        invariant
            start < pos <= end <= FIELD_WIDTH,
            decimal(rest as nat).len() == pos - start,
            decimal(n as nat) == decimal(rest as nat) + buf@.subrange(pos as int, end as int),
            buf@.take(start as int) == old(buf)@.take(start as int),
            buf@.skip(end as int) == old(buf)@.skip(end as int),
        decreases rest,
    {
        assert(decimal((rest / 10) as nat).len() >= 1);
        pos = pos - 1;
        buf[pos] = digit_byte(rest % 10);
        rest = rest / 10;
    }
    buf[start] = digit_byte(rest);
    end
}

/// Writes the hexadecimal digits of `n` into `buf` from index 0 on and returns the
/// index behind the last digit.
fn write_hexadecimal(n: u32, buf: &mut [u8; 8]) -> (end: usize)
    ensures
        end == hexadecimal(n as nat).len(),
        end <= FIELD_WIDTH,
        final(buf)@.take(end as int) == hexadecimal(n as nat),
        final(buf)@.skip(end as int) == old(buf)@.skip(end as int),
{
    proof {
        lemma_hexadecimal_len(n as nat);
    }
    let mut count: usize = 1;
    let mut rest: u32 = n;
    while rest >= 16
        invariant
            count >= 1,
            hexadecimal(n as nat).len() == hexadecimal(rest as nat).len() + count - 1,
            hexadecimal(n as nat).len() <= FIELD_WIDTH,
        decreases rest,
    {
        rest = rest / 16;
        count = count + 1;
    }
    let end: usize = count;
    let mut pos: usize = end;
    rest = n;
    while rest >= 16
        invariant
            0 < pos <= end <= FIELD_WIDTH,
            hexadecimal(rest as nat).len() == pos,
            hexadecimal(n as nat) == hexadecimal(rest as nat) + buf@.subrange(
                pos as int,
                end as int,
            ),
            buf@.skip(end as int) == old(buf)@.skip(end as int),
        decreases rest,
    {
        assert(hexadecimal((rest / 16) as nat).len() >= 1);
        pos = pos - 1;
        buf[pos] = digit_byte(rest % 16);
        rest = rest / 16;
    }
    buf[0] = digit_byte(rest);
    end
}

/// Formats a signed value in decimal.
///
/// The text is written at the start of `buf`, and the part of `buf` that holds it is
/// returned: the digits of `n`, after a minus sign where `n` is negative, or `Err`
/// where that text would be longer than the field. The rest of `buf` is left as it is.
pub fn base_10_bytes<'a>(n: i32, buf: &'a mut [u8; 8]) -> (text: &'a [u8])
    ensures
        text@ == integer_text(n as int),
        final(buf)@ == text@ + old(buf)@.skip(text@.len() as int),
{
    proof {
        lemma_integer_text_range(n as int);
    }
    let mut end: usize = 3;
    if n < -9_999_999 || n > 99_999_999 {
        buf[0] = 'E' as u8;
        buf[1] = 'r' as u8;
        buf[2] = 'r' as u8;
    } else if n < 0 {
        buf[0] = '-' as u8;
        let ghost signed = buf@;
        let magnitude: u32 = (-n) as u32;
        end = write_decimal(magnitude, buf, 1);
        assert(signed.skip(end as int) =~= old(buf)@.skip(end as int));
    } else {
        end = write_decimal(n as u32, buf, 0);
    }
    proof {
        assert(buf@.subrange(0, end as int) =~= integer_text(n as int));
        assert(buf@.skip(end as int) =~= old(buf)@.skip(end as int));
        assert(buf@ =~= buf@.subrange(0, end as int) + buf@.skip(end as int));
    }
    let whole: &[u8] = &*buf;
    slice_subrange(whole, 0, end)
}

/// Formats an unsigned value in hexadecimal, in lower case.
///
/// The text is written at the start of `buf`, and the part of `buf` that holds it is
/// returned. A value of thirty-two bits always fits the field. The rest of `buf` is
/// left as it is.
pub fn hex_bytes<'a>(n: u32, buf: &'a mut [u8; 8]) -> (text: &'a [u8])
    ensures
        text@ == hex_text(n as nat),
        final(buf)@ == text@ + old(buf)@.skip(text@.len() as int),
{
    let end: usize = write_hexadecimal(n, buf);
    let whole: &[u8] = &*buf;
    slice_subrange(whole, 0, end)
}

/// Lays `val` out right-justified in a field of eight characters, with spaces to its
/// left.
pub fn pad_left(val: &[u8]) -> (out: [u8; 8])
    requires
        val@.len() <= FIELD_WIDTH,
    ensures
        out@ == right_justified(val@),
{
    let mut out: [u8; 8] = [' ' as u8;8];
    let len: usize = val.len();
    let shift: usize = FIELD_WIDTH - len;
    let mut i: usize = 0;
    while i < len
        invariant
            i <= len,
            len == val@.len(),
            shift == FIELD_WIDTH - len,
            forall|k: int| 0 <= k < shift ==> out@[k] == ' ' as u8,
            forall|k: int| 0 <= k < i ==> out@[shift + k] == val@[k],
        decreases len - i,
    {
        out[shift + i] = val[i];
        i = i + 1;
    }
    out
}

/// Whether `c` is a digit character: `0` to `9`, or `a` to `f`.
pub open spec fn is_hex_digit(c: u8) -> bool {
    ('0' as u8 <= c <= '9' as u8) || ('a' as u8 <= c <= 'f' as u8)
}

/// The value of one digit character: `0` to `9`, then `a` to `f`.
pub open spec fn digit_value(c: u8) -> int {
    if c <= '9' as u8 {
        c - '0' as u8
    } else {
        c - 'a' as u8 + 10
    }
}

/// The number that a text of decimal digits stands for.
pub open spec fn decimal_value(text: Seq<u8>) -> int
    decreases text.len(),
{
    if text.len() == 0 {
        0
    } else {
        10 * decimal_value(text.drop_last()) + digit_value(text.last())
    }
}

/// The number that a text of hexadecimal digits stands for.
pub open spec fn hexadecimal_value(text: Seq<u8>) -> int
    decreases text.len(),
{
    if text.len() == 0 {
        0
    } else {
        16 * hexadecimal_value(text.drop_last()) + digit_value(text.last())
    }
}

/// The decimal text of a number is made of decimal digits, stands for that number, and
/// starts with a zero only where the number is zero.
pub proof fn lemma_decimal_reads_back(n: nat)
    ensures
        decimal_value(decimal(n)) == n,
        forall|i: int|
            0 <= i < decimal(n).len() ==> '0' as u8 <= #[trigger] decimal(n)[i] <= '9' as u8,
        decimal(n)[0] == '0' as u8 <==> n == 0,
    decreases n,
{
    let text = decimal(n);
    assert(digit_value(digit_char((n % 10) as int)) == n % 10);
    if n < 10 {
        assert(text.drop_last() =~= Seq::<u8>::empty());
        assert(decimal_value(text.drop_last()) == 0);
    } else {
        lemma_decimal_reads_back(n / 10);
        assert(text.drop_last() =~= decimal(n / 10));
        assert(text.last() == digit_char((n % 10) as int));
    }
    assert(decimal_value(text) == 10 * decimal_value(text.drop_last()) + digit_value(text.last()));
}

/// The hexadecimal text of a number is made of lower-case hexadecimal digits, stands
/// for that number, and starts with a zero only where the number is zero.
pub proof fn lemma_hexadecimal_reads_back(n: nat)
    ensures
        hexadecimal_value(hexadecimal(n)) == n,
        forall|i: int|
            0 <= i < hexadecimal(n).len() ==> is_hex_digit(#[trigger] hexadecimal(n)[i]),
        hexadecimal(n)[0] == '0' as u8 <==> n == 0,
    decreases n,
{
    let text = hexadecimal(n);
    assert(digit_value(digit_char((n % 16) as int)) == n % 16);
    if n < 16 {
        assert(text.drop_last() =~= Seq::<u8>::empty());
        assert(hexadecimal_value(text.drop_last()) == 0);
    } else {
        lemma_hexadecimal_reads_back(n / 16);
        assert(text.drop_last() =~= hexadecimal(n / 16));
        assert(text.last() == digit_char((n % 16) as int));
    }
    assert(hexadecimal_value(text) == 16 * hexadecimal_value(text.drop_last()) + digit_value(
        text.last(),
    ));
}

/// A right-justified text fills the field: spaces first, then the text.
pub proof fn lemma_right_justified(text: Seq<u8>)
    requires
        text.len() <= FIELD_WIDTH,
    ensures
        right_justified(text).len() == FIELD_WIDTH,
        forall|i: int|
            0 <= i < FIELD_WIDTH - text.len() ==> #[trigger] right_justified(text)[i] == ' ' as u8,
        forall|i: int|
            0 <= i < text.len() ==> #[trigger] right_justified(text)[FIELD_WIDTH - text.len() + i]
                == text[i],
{
}

/// A byte without a glyph is shown as the question mark, whatever the dot flag says:
/// the question mark already holds the decimal point.
pub proof fn lemma_unknown_byte_shows_question_mark(b: u8, dot: bool)
    requires
        glyph(b) is None,
    ensures
        segments(b, dot) == UNKNOWN_GLYPH,
{
    assert(UNKNOWN_GLYPH | DOT == UNKNOWN_GLYPH) by (bit_vector);
}

/// The dot flag lights the decimal point and leaves the seven segments as they are.
pub proof fn lemma_dot_only_adds_the_point(b: u8)
    ensures
        segments(b, true) == segments(b, false) | DOT,
        segments(b, true) & DOT == DOT,
        segments(b, true) & 0x7f == segments(b, false) & 0x7f,
{
    let base = segments(b, false);
    assert((base | DOT) & DOT == DOT) by (bit_vector);
    assert((base | DOT) & 0x7f == base & 0x7f) by (bit_vector);
}

/// Every glyph but the point itself leaves the decimal point dark, so that the dot
/// flag alone decides it.
pub proof fn lemma_glyphs_leave_the_point_dark(b: u8)
    requires
        glyph(b) is Some,
        b != '.' as u8,
    ensures
        segments(b, false) & DOT == 0,
{
    let p = glyph(b)->0;
    assert(p <= 0x7f);
    assert(p <= 0x7f ==> p & DOT == 0) by (bit_vector);
}

/// An ASCII digit selects itself in Code B: its low nibble is its value and the
/// decimal point stays dark.
pub proof fn lemma_code_b_digit(b: u8)
    requires
        '0' as u8 <= b <= '9' as u8,
    ensures
        code_b(b) == b,
        code_b(b) & 0x0f == b - '0' as u8,
        code_b(b) & DOT == 0,
{
    assert(0x30u8 <= b <= 0x39u8 ==> b & 0x0f == (b - 0x30u8) as u8 && b & DOT == 0)
        by (bit_vector);
}

/// In Code B an upper-case letter is its lower-case letter with the decimal point lit.
pub proof fn lemma_code_b_upper_case_lights_the_point(lower: u8)
    requires
        lower == 'e' as u8 || lower == 'h' as u8 || lower == 'l' as u8 || lower == 'p' as u8,
    ensures
        code_b((lower - 0x20) as u8) == code_b(lower) | DOT,
        code_b(lower) & DOT == 0,
{
    assert(0x0bu8 | DOT == 0x8bu8 && 0x0cu8 | DOT == 0x8cu8 && 0x0du8 | DOT == 0x8du8 && 0x0eu8
        | DOT == 0x8eu8) by (bit_vector);
    assert(0x0bu8 & DOT == 0 && 0x0cu8 & DOT == 0 && 0x0du8 & DOT == 0 && 0x0eu8 & DOT == 0)
        by (bit_vector);
}

/// A byte outside the Code-B table reaches the register unchanged.
pub proof fn lemma_code_b_passes_other_bytes(b: u8)
    requires
        !in_code_b_table(b),
    ensures
        code_b(b) == b,
{
}

} // verus!
