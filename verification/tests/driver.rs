use max7219::connectors::{BusFault, BusLog, SerialBus, SpiConnector};
use max7219::{Command, DataError, DecodeMode, MAX7219};
use std::cell::RefCell;
use std::rc::Rc;

/// A bus that records every frame and fails the frame with a chosen index.
#[derive(Clone)]
struct Bus {
    frames: Rc<RefCell<Vec<Vec<u8>>>>,
    fail_at: Rc<RefCell<Option<usize>>>,
}

impl Bus {
    fn new() -> Bus {
        Bus { frames: Rc::new(RefCell::new(Vec::new())), fail_at: Rc::new(RefCell::new(None)) }
    }

    fn failing_at(index: usize) -> Bus {
        let bus = Bus::new();
        bus.fail_at(index);
        bus
    }

    /// Makes the frame with this index fail, counted over all frames ever sent.
    fn fail_at(&self, index: usize) {
        *self.fail_at.borrow_mut() = Some(index);
    }

    /// Makes the next frame fail.
    fn fail_next(&self) {
        let next = self.frames.borrow().len();
        self.fail_at(next);
    }

    fn frames(&self) -> Vec<Vec<u8>> {
        self.frames.borrow().clone()
    }

    /// Forgets the frames sent so far and returns how many there were.
    fn mark(&self) -> usize {
        self.frames.borrow().len()
    }

    fn since(&self, mark: usize) -> Vec<Vec<u8>> {
        self.frames.borrow()[mark..].to_vec()
    }
}

impl SerialBus for Bus {
    fn written(&self) -> BusLog {
        unreachable!()
    }

    fn write(&mut self, bytes: &[u8]) -> Result<(), BusFault> {
        let mut frames = self.frames.borrow_mut();
        let index = frames.len();
        frames.push(bytes.to_vec());
        if *self.fail_at.borrow() == Some(index) {
            Err(BusFault)
        } else {
            Ok(())
        }
    }
}

type Driver<const D: usize> = MAX7219<D, SpiConnector<Bus>>;

fn driver<const D: usize>(bus: &Bus) -> Driver<D> {
    match MAX7219::from_spi(bus.clone()) {
        Ok(driver) => driver,
        Err(error) => panic!("construction failed: {:?}", error),
    }
}

/// The frame for one device of a chain, written out independently of the library.
fn frame(devices: usize, addr: usize, register: u8, value: u8) -> Vec<u8> {
    let mut bytes = vec![0u8; 2 * devices];
    bytes[2 * addr] = register;
    bytes[2 * addr + 1] = value;
    bytes
}

/// The frames of initialization, written out independently of the library.
fn init_frames(devices: usize) -> Vec<Vec<u8>> {
    let mut frames = Vec::new();
    for addr in 0..devices {
        frames.push(frame(devices, addr, 0x0F, 0x00));
        frames.push(frame(devices, addr, 0x0B, 0x07));
        frames.push(frame(devices, addr, 0x09, 0x00));
        for digit in 1..=8 {
            frames.push(frame(devices, addr, digit, 0x00));
        }
    }
    for addr in 0..devices {
        frames.push(frame(devices, addr, 0x0C, 0x00));
    }
    frames
}

fn check_addressing<const D: usize>(devices: usize) {
    let bus = Bus::new();
    let mut driver: Driver<D> = driver(&bus);
    assert_eq!(Driver::<D>::devices(), devices);
    for addr in 0..devices {
        let mark = bus.mark();
        assert_eq!(driver.write_raw_byte(addr, 0xA7, 0x5C), Ok(()));
        let sent = bus.since(mark);
        assert_eq!(sent.len(), 1);
        assert_eq!(sent[0].len(), 2 * devices);
        for (index, byte) in sent[0].iter().enumerate() {
            if index == 2 * addr {
                assert_eq!(*byte, 0xA7);
            } else if index == 2 * addr + 1 {
                assert_eq!(*byte, 0x5C);
            } else {
                assert_eq!(*byte, 0x00);
            }
        }
    }
    let mark = bus.mark();
    assert_eq!(driver.write_raw_byte(devices, 0xA7, 0x5C), Err(DataError::AddressOutOfRange));
    assert_eq!(bus.since(mark), Vec::<Vec<u8>>::new());
}

#[test]
fn frame_is_zero_but_for_the_slot_of_the_addressed_device() {
    check_addressing::<1>(1);
    check_addressing::<2>(2);
    check_addressing::<3>(3);
    check_addressing::<4>(4);
    check_addressing::<5>(5);
    check_addressing::<6>(6);
    check_addressing::<7>(7);
    check_addressing::<8>(8);
}

#[test]
fn chain_length_is_held_between_one_and_eight() {
    check_addressing::<0>(1);
    check_addressing::<9>(8);
    check_addressing::<100>(8);
    assert_eq!(MAX7219::<0, SpiConnector<Bus>>::devices(), 1);
    assert_eq!(MAX7219::<8, SpiConnector<Bus>>::devices(), 8);
    assert_eq!(MAX7219::<9, SpiConnector<Bus>>::devices(), 8);
}

#[test]
fn construction_initializes_three_chained_devices() {
    let bus = Bus::new();
    let driver: Driver<3> = driver(&bus);
    let frames = bus.frames();
    assert_eq!(frames.len(), 36);
    assert_eq!(frames, init_frames(3));
    // Spelled out for the first device and the power-off at the end.
    assert_eq!(frames[0], vec![0x0F, 0x00, 0, 0, 0, 0]);
    assert_eq!(frames[1], vec![0x0B, 0x07, 0, 0, 0, 0]);
    assert_eq!(frames[2], vec![0x09, 0x00, 0, 0, 0, 0]);
    assert_eq!(frames[3], vec![0x01, 0x00, 0, 0, 0, 0]);
    assert_eq!(frames[10], vec![0x08, 0x00, 0, 0, 0, 0]);
    assert_eq!(frames[11], vec![0, 0, 0x0F, 0x00, 0, 0]);
    assert_eq!(frames[22], vec![0, 0, 0, 0, 0x0F, 0x00]);
    assert_eq!(frames[33], vec![0x0C, 0x00, 0, 0, 0, 0]);
    assert_eq!(frames[34], vec![0, 0, 0x0C, 0x00, 0, 0]);
    assert_eq!(frames[35], vec![0, 0, 0, 0, 0x0C, 0x00]);
    assert_eq!(driver.decode_mode(), DecodeMode::NoDecode);
}

#[test]
fn construction_initializes_a_single_device() {
    let bus = Bus::new();
    let _driver: Driver<1> = driver(&bus);
    assert_eq!(bus.frames(), init_frames(1));
    assert_eq!(bus.frames().len(), 12);
}

#[test]
fn construction_fails_with_the_error_of_the_transport() {
    for fail_at in 0..24 {
        let bus = Bus::failing_at(fail_at);
        let outcome: Result<Driver<2>, DataError> = MAX7219::from_spi(bus.clone());
        assert!(matches!(outcome, Err(DataError::Spi)));
        assert_eq!(bus.frames(), init_frames(2)[..=fail_at].to_vec());
    }
}

#[test]
fn init_can_be_run_again_and_writes_the_decode_mode_of_every_device() {
    let bus = Bus::new();
    let mut driver: Driver<2> = driver(&bus);
    assert_eq!(driver.set_decode_mode(1, DecodeMode::CodeBDigits3_0), Ok(()));
    let mark = bus.mark();
    assert_eq!(driver.init(), Ok(()));
    assert_eq!(bus.since(mark), init_frames(2));
    assert_eq!(driver.decode_mode(), DecodeMode::NoDecode);
    let mark = bus.mark();
    assert_eq!(driver.init(), Ok(()));
    assert_eq!(bus.since(mark), init_frames(2));
}

#[test]
fn init_gives_up_at_the_first_failure() {
    let bus = Bus::new();
    let mut driver: Driver<2> = driver(&bus);
    assert_eq!(driver.set_decode_mode(0, DecodeMode::CodeBDigit0), Ok(()));
    // A failure before the decode mode of the first device is written.
    let mark = bus.mark();
    bus.fail_at(mark + 1);
    assert_eq!(driver.init(), Err(DataError::Spi));
    assert_eq!(bus.since(mark), init_frames(2)[..2].to_vec());
    assert_eq!(driver.decode_mode(), DecodeMode::CodeBDigit0);
    // A failure of that write itself.
    let mark = bus.mark();
    bus.fail_at(mark + 2);
    assert_eq!(driver.init(), Err(DataError::Spi));
    assert_eq!(bus.since(mark), init_frames(2)[..3].to_vec());
    assert_eq!(driver.decode_mode(), DecodeMode::CodeBDigit0);
    // A failure after it.
    let mark = bus.mark();
    bus.fail_at(mark + 3);
    assert_eq!(driver.init(), Err(DataError::Spi));
    assert_eq!(bus.since(mark), init_frames(2)[..4].to_vec());
    assert_eq!(driver.decode_mode(), DecodeMode::NoDecode);
    // A failure while powering off.
    let mark = bus.mark();
    bus.fail_at(mark + 23);
    assert_eq!(driver.init(), Err(DataError::Spi));
    assert_eq!(bus.since(mark), init_frames(2));
}

#[test]
fn power_on_and_off_address_every_device_in_turn() {
    let bus = Bus::new();
    let mut driver: Driver<3> = driver(&bus);
    let mark = bus.mark();
    assert_eq!(driver.power_on(), Ok(()));
    assert_eq!(
        bus.since(mark),
        vec![frame(3, 0, 0x0C, 0x01), frame(3, 1, 0x0C, 0x01), frame(3, 2, 0x0C, 0x01)]
    );
    let mark = bus.mark();
    assert_eq!(driver.power_off(), Ok(()));
    assert_eq!(
        bus.since(mark),
        vec![frame(3, 0, 0x0C, 0x00), frame(3, 1, 0x0C, 0x00), frame(3, 2, 0x0C, 0x00)]
    );
}

#[test]
fn power_on_gives_up_at_the_first_failure() {
    let bus = Bus::new();
    let mut driver: Driver<3> = driver(&bus);
    let mark = bus.mark();
    bus.fail_at(mark + 1);
    assert_eq!(driver.power_on(), Err(DataError::Spi));
    assert_eq!(bus.since(mark), vec![frame(3, 0, 0x0C, 0x01), frame(3, 1, 0x0C, 0x01)]);
}

#[test]
fn clear_display_blanks_the_eight_digits_of_one_device() {
    let bus = Bus::new();
    let mut driver: Driver<2> = driver(&bus);
    let mark = bus.mark();
    assert_eq!(driver.clear_display(1), Ok(()));
    let expected: Vec<Vec<u8>> = (1..=8).map(|digit| frame(2, 1, digit, 0x00)).collect();
    assert_eq!(bus.since(mark), expected);
}

#[test]
fn clear_all_displays_sends_one_frame_for_the_highest_digit_of_every_device() {
    let bus = Bus::new();
    let mut driver: Driver<3> = driver(&bus);
    let mark = bus.mark();
    assert_eq!(driver.clear_all_displays(), Ok(()));
    assert_eq!(bus.since(mark), vec![vec![0x08, 0x00, 0x08, 0x00, 0x08, 0x00]]);
    bus.fail_next();
    assert_eq!(driver.clear_all_displays(), Err(DataError::Spi));
}

#[test]
fn set_intensity_writes_the_value_as_it_is() {
    let bus = Bus::new();
    let mut driver: Driver<2> = driver(&bus);
    let mark = bus.mark();
    assert_eq!(driver.set_intensity(0, 0x0F), Ok(()));
    assert_eq!(driver.set_intensity(1, 0x00), Ok(()));
    assert_eq!(driver.set_intensity(1, 0xF3), Ok(()));
    assert_eq!(
        bus.since(mark),
        vec![frame(2, 0, 0x0A, 0x0F), frame(2, 1, 0x0A, 0x00), frame(2, 1, 0x0A, 0xF3)]
    );
}

#[test]
fn test_mode_is_turned_on_and_off() {
    let bus = Bus::new();
    let mut driver: Driver<2> = driver(&bus);
    let mark = bus.mark();
    assert_eq!(driver.test(1, true), Ok(()));
    assert_eq!(driver.test(1, false), Ok(()));
    assert_eq!(bus.since(mark), vec![frame(2, 1, 0x0F, 0x01), frame(2, 1, 0x0F, 0x00)]);
}

#[test]
fn write_command_names_the_register_by_its_address() {
    let bus = Bus::new();
    let mut driver: Driver<2> = driver(&bus);
    let mark = bus.mark();
    assert_eq!(driver.write_command(1, Command::ScanLimit, 0x03), Ok(()));
    assert_eq!(driver.write_command(0, Command::Noop, 0x00), Ok(()));
    assert_eq!(bus.since(mark), vec![frame(2, 1, 0x0B, 0x03), vec![0, 0, 0, 0]]);
}

#[test]
fn write_raw_bytes_sends_the_buffer_as_it_is() {
    let bus = Bus::new();
    let mut driver: Driver<2> = driver(&bus);
    let mark = bus.mark();
    assert_eq!(driver.write_raw_bytes(&[1, 2, 3]), Ok(()));
    assert_eq!(driver.write_raw_bytes(&[]), Ok(()));
    assert_eq!(bus.since(mark), vec![vec![1, 2, 3], vec![]]);
    bus.fail_next();
    assert_eq!(driver.write_raw_bytes(&[9]), Err(DataError::Spi));
}

#[test]
fn set_decode_mode_twice_writes_the_register_once() {
    for mode in [DecodeMode::CodeBDigit0, DecodeMode::CodeBDigits3_0, DecodeMode::CodeBDigits7_0] {
        let bus = Bus::new();
        let mut driver: Driver<2> = driver(&bus);
        let mark = bus.mark();
        assert_eq!(driver.set_decode_mode(1, mode), Ok(()));
        assert_eq!(driver.set_decode_mode(1, mode), Ok(()));
        assert_eq!(bus.since(mark), vec![frame(2, 1, 0x09, mode.code())]);
        assert_eq!(driver.decode_mode(), mode);
    }
}

#[test]
fn set_decode_mode_sends_nothing_for_the_mode_that_is_remembered() {
    let bus = Bus::new();
    let mut driver: Driver<1> = driver(&bus);
    let mark = bus.mark();
    assert_eq!(driver.set_decode_mode(0, DecodeMode::NoDecode), Ok(()));
    assert_eq!(bus.since(mark), Vec::<Vec<u8>>::new());
}

#[test]
fn set_decode_mode_remembers_a_mode_only_once_it_is_written() {
    let bus = Bus::new();
    let mut driver: Driver<1> = driver(&bus);
    bus.fail_next();
    assert_eq!(driver.set_decode_mode(0, DecodeMode::CodeBDigits7_0), Err(DataError::Spi));
    assert_eq!(driver.decode_mode(), DecodeMode::NoDecode);
    let mark = bus.mark();
    assert_eq!(driver.set_decode_mode(0, DecodeMode::CodeBDigits7_0), Ok(()));
    assert_eq!(bus.since(mark), vec![vec![0x09, 0xFF]]);
    assert_eq!(driver.decode_mode(), DecodeMode::CodeBDigits7_0);
}

#[test]
fn write_bcd_on_a_single_device() {
    let bus = Bus::new();
    let mut driver: Driver<1> = driver(&bus);
    let mark = bus.mark();
    assert_eq!(driver.write_bcd(0, b"12345678"), Ok(()));
    assert_eq!(
        bus.since(mark),
        vec![
            vec![0x09, 0xFF],
            vec![0x08, b'1'],
            vec![0x07, b'2'],
            vec![0x06, b'3'],
            vec![0x05, b'4'],
            vec![0x04, b'5'],
            vec![0x03, b'6'],
            vec![0x02, b'7'],
            vec![0x01, b'8'],
            vec![0x09, 0x00],
        ]
    );
    for (position, sent) in bus.since(mark)[1..9].iter().enumerate() {
        assert_eq!(sent[1] & 0x0F, position as u8 + 1);
        assert_eq!(sent[1] & 0x80, 0);
    }
    assert_eq!(driver.decode_mode(), DecodeMode::NoDecode);
}

#[test]
fn write_bcd_encodes_letters_and_blanks() {
    let bus = Bus::new();
    let mut driver: Driver<1> = driver(&bus);
    assert_eq!(driver.set_decode_mode(0, DecodeMode::CodeBDigits7_0), Ok(()));
    let mark = bus.mark();
    assert_eq!(driver.write_bcd(0, b"-HELP 9e"), Ok(()));
    assert_eq!(
        bus.since(mark),
        vec![
            vec![0x08, 0x0A],
            vec![0x07, 0x8C],
            vec![0x06, 0x8B],
            vec![0x05, 0x8D],
            vec![0x04, 0x8E],
            vec![0x03, 0x0F],
            vec![0x02, b'9'],
            vec![0x01, 0x0B],
        ]
    );
}

#[test]
fn write_str_puts_the_first_character_in_the_highest_digit() {
    let bus = Bus::new();
    let mut driver: Driver<2> = driver(&bus);
    let mark = bus.mark();
    assert_eq!(driver.write_str(1, b"012 -_AZ", 0x00), Ok(()));
    assert_eq!(
        bus.since(mark),
        vec![
            frame(2, 1, 0x08, 0x7E),
            frame(2, 1, 0x07, 0x30),
            frame(2, 1, 0x06, 0x6D),
            frame(2, 1, 0x05, 0x00),
            frame(2, 1, 0x04, 0x01),
            frame(2, 1, 0x03, 0x08),
            frame(2, 1, 0x02, 0x77),
            frame(2, 1, 0x01, 0xE5),
        ]
    );
}

#[test]
fn write_str_takes_the_dot_of_the_first_character_from_the_highest_bit() {
    let bus = Bus::new();
    let mut driver: Driver<1> = driver(&bus);
    let mark = bus.mark();
    assert_eq!(driver.write_str(0, b"11111111", 0b1000_0000), Ok(()));
    let sent = bus.since(mark);
    assert_eq!(sent[0], vec![0x08, 0xB0]);
    for frame in &sent[1..] {
        assert_eq!(frame[1], 0x30);
    }
    let mark = bus.mark();
    assert_eq!(driver.write_str(0, b"11111111", 0b0100_0001), Ok(()));
    let values: Vec<u8> = bus.since(mark).iter().map(|frame| frame[1]).collect();
    assert_eq!(values, vec![0x30, 0xB0, 0x30, 0x30, 0x30, 0x30, 0x30, 0xB0]);
    let mark = bus.mark();
    assert_eq!(driver.write_str(0, b"        ", 0xFF), Ok(()));
    let values: Vec<u8> = bus.since(mark).iter().map(|frame| frame[1]).collect();
    assert_eq!(values, vec![0x80; 8]);
}

#[test]
fn write_str_and_write_bcd_restore_every_prior_decode_mode() {
    let modes = [
        DecodeMode::NoDecode,
        DecodeMode::CodeBDigit0,
        DecodeMode::CodeBDigits3_0,
        DecodeMode::CodeBDigits7_0,
    ];
    for prior in modes {
        let bus = Bus::new();
        let mut driver: Driver<2> = driver(&bus);
        assert_eq!(driver.set_decode_mode(0, prior), Ok(()));

        let mark = bus.mark();
        assert_eq!(driver.write_str(1, b"abcdefgh", 0x00), Ok(()));
        assert_eq!(driver.decode_mode(), prior);
        let sent = bus.since(mark);
        if prior == DecodeMode::NoDecode {
            assert_eq!(sent.len(), 8);
        } else {
            assert_eq!(sent.len(), 10);
            assert_eq!(sent[0], frame(2, 1, 0x09, 0x00));
            assert_eq!(sent[9], frame(2, 1, 0x09, prior.code()));
        }

        let mark = bus.mark();
        assert_eq!(driver.write_bcd(1, b"12345678"), Ok(()));
        assert_eq!(driver.decode_mode(), prior);
        let sent = bus.since(mark);
        if prior == DecodeMode::CodeBDigits7_0 {
            assert_eq!(sent.len(), 8);
        } else {
            assert_eq!(sent.len(), 10);
            assert_eq!(sent[0], frame(2, 1, 0x09, 0xFF));
            assert_eq!(sent[9], frame(2, 1, 0x09, prior.code()));
        }

        let mark = bus.mark();
        assert_eq!(driver.write_digits(1, &[0; 8]), Ok(()));
        assert_eq!(driver.decode_mode(), prior);
        let sent = bus.since(mark);
        if prior != DecodeMode::NoDecode {
            assert_eq!(sent[0], frame(2, 1, 0x09, 0x00));
            assert_eq!(sent[9], frame(2, 1, 0x09, prior.code()));
        }
    }
}

#[test]
fn write_digits_puts_the_first_pattern_in_the_lowest_digit() {
    let bus = Bus::new();
    let mut driver: Driver<2> = driver(&bus);
    let mark = bus.mark();
    let raw = [0x10, 0x20, 0x30, 0x40, 0x50, 0x60, 0x70, 0x80];
    assert_eq!(driver.write_digits(0, &raw), Ok(()));
    let expected: Vec<Vec<u8>> =
        (0..8).map(|i| frame(2, 0, i as u8 + 1, raw[i])).collect();
    assert_eq!(bus.since(mark), expected);
}

fn shown(bus: &Bus, mark: usize) -> Vec<u8> {
    let sent = bus.since(mark);
    assert_eq!(sent.len(), 8);
    for (position, frame) in sent.iter().enumerate() {
        assert_eq!(frame[0], 8 - position as u8);
    }
    sent.iter().map(|frame| frame[1]).collect()
}

#[test]
fn write_integer_shows_zero_right_justified() {
    let bus = Bus::new();
    let mut driver: Driver<1> = driver(&bus);
    let mark = bus.mark();
    assert_eq!(driver.write_integer(0, 0), Ok(()));
    assert_eq!(shown(&bus, mark), vec![0, 0, 0, 0, 0, 0, 0, 0x7E]);
}

#[test]
fn write_integer_shows_a_negative_value_with_its_sign() {
    let bus = Bus::new();
    let mut driver: Driver<1> = driver(&bus);
    let mark = bus.mark();
    assert_eq!(driver.write_integer(0, -5), Ok(()));
    assert_eq!(shown(&bus, mark), vec![0, 0, 0, 0, 0, 0, 0x01, 0x5B]);
}

#[test]
fn write_integer_shows_err_for_a_value_that_does_not_fit() {
    for value in [100_000_000, -10_000_000, i32::MAX, i32::MIN] {
        let bus = Bus::new();
        let mut driver: Driver<1> = driver(&bus);
        let mark = bus.mark();
        assert_eq!(driver.write_integer(0, value), Ok(()));
        // 'E' has a glyph, 'r' has none.
        assert_eq!(shown(&bus, mark), vec![0, 0, 0, 0, 0, 0x4F, 0xE5, 0xE5]);
    }
}

#[test]
fn write_integer_shows_the_widest_values_that_fit() {
    let bus = Bus::new();
    let mut driver: Driver<1> = driver(&bus);
    let mark = bus.mark();
    assert_eq!(driver.write_integer(0, 99_999_999), Ok(()));
    assert_eq!(shown(&bus, mark), vec![0x7B; 8]);
    let mark = bus.mark();
    assert_eq!(driver.write_integer(0, -9_999_999), Ok(()));
    assert_eq!(shown(&bus, mark), vec![0x01, 0x7B, 0x7B, 0x7B, 0x7B, 0x7B, 0x7B, 0x7B]);
}

#[test]
fn write_hex_shows_lower_case_digits_right_justified() {
    let bus = Bus::new();
    let mut driver: Driver<1> = driver(&bus);
    let mark = bus.mark();
    assert_eq!(driver.write_hex(0, 0xC0DE), Ok(()));
    assert_eq!(shown(&bus, mark), vec![0, 0, 0, 0, 0x4E, 0x7E, 0x3D, 0x4F]);
    let mark = bus.mark();
    assert_eq!(driver.write_hex(0, 0), Ok(()));
    assert_eq!(shown(&bus, mark), vec![0, 0, 0, 0, 0, 0, 0, 0x7E]);
    let mark = bus.mark();
    assert_eq!(driver.write_hex(0, u32::MAX), Ok(()));
    assert_eq!(shown(&bus, mark), vec![0x47; 8]);
}

#[test]
fn address_outside_the_chain_is_refused_before_anything_is_sent() {
    let bus = Bus::new();
    let mut driver: Driver<2> = driver(&bus);
    assert_eq!(driver.set_decode_mode(0, DecodeMode::CodeBDigit0), Ok(()));
    let mark = bus.mark();
    let refused = Err(DataError::AddressOutOfRange);
    for addr in [2, 3, 8, usize::MAX] {
        assert_eq!(driver.clear_display(addr), refused);
        assert_eq!(driver.set_intensity(addr, 1), refused);
        assert_eq!(driver.set_decode_mode(addr, DecodeMode::NoDecode), refused);
        assert_eq!(driver.set_decode_mode(addr, DecodeMode::CodeBDigit0), refused);
        assert_eq!(driver.write_str(addr, b"        ", 0), refused);
        assert_eq!(driver.write_bcd(addr, b"        "), refused);
        assert_eq!(driver.write_digits(addr, &[0; 8]), refused);
        assert_eq!(driver.write_integer(addr, 1), refused);
        assert_eq!(driver.write_hex(addr, 1), refused);
        assert_eq!(driver.test(addr, true), refused);
        assert_eq!(driver.write_command(addr, Command::Power, 1), refused);
        assert_eq!(driver.write_raw_byte(addr, 1, 1), refused);
    }
    assert_eq!(bus.since(mark), Vec::<Vec<u8>>::new());
    assert_eq!(driver.decode_mode(), DecodeMode::CodeBDigit0);
}

#[test]
fn write_bcd_gives_up_at_the_first_failure() {
    let whole = vec![
        vec![0x09, 0xFF],
        vec![0x08, b'1'],
        vec![0x07, b'2'],
        vec![0x06, b'3'],
        vec![0x05, b'4'],
        vec![0x04, b'5'],
        vec![0x03, b'6'],
        vec![0x02, b'7'],
        vec![0x01, b'8'],
        vec![0x09, 0x00],
    ];
    for fail_at in 0..whole.len() {
        let bus = Bus::new();
        let mut driver: Driver<1> = driver(&bus);
        let mark = bus.mark();
        bus.fail_at(mark + fail_at);
        assert_eq!(driver.write_bcd(0, b"12345678"), Err(DataError::Spi));
        assert_eq!(bus.since(mark), whole[..=fail_at].to_vec());
        let remembered = if fail_at == 0 {
            DecodeMode::NoDecode
        } else {
            DecodeMode::CodeBDigits7_0
        };
        assert_eq!(driver.decode_mode(), remembered, "failure at {}", fail_at);
    }
}

#[test]
fn write_str_can_be_repeated_after_a_failure() {
    let bus = Bus::new();
    let mut driver: Driver<1> = driver(&bus);
    assert_eq!(driver.set_decode_mode(0, DecodeMode::CodeBDigits7_0), Ok(()));
    bus.fail_next();
    assert_eq!(driver.write_str(0, b"12345678", 0), Err(DataError::Spi));
    assert_eq!(driver.decode_mode(), DecodeMode::CodeBDigits7_0);
    let mark = bus.mark();
    assert_eq!(driver.write_str(0, b"12345678", 0), Ok(()));
    let sent = bus.since(mark);
    assert_eq!(sent.len(), 10);
    assert_eq!(sent[0], vec![0x09, 0x00]);
    assert_eq!(sent[9], vec![0x09, 0xFF]);
    assert_eq!(driver.decode_mode(), DecodeMode::CodeBDigits7_0);
}

/// The registers of every device after the frames were latched: each device takes the
/// register and the value of its own slot, and a register address of zero changes
/// nothing.
fn registers_after(devices: usize, frames: &[Vec<u8>]) -> Vec<[Option<u8>; 16]> {
    let mut registers = vec![[None; 16]; devices];
    for frame in frames {
        assert_eq!(frame.len(), 2 * devices);
        for device in 0..devices {
            let register = frame[2 * device] as usize;
            if register != 0 {
                registers[device][register] = Some(frame[2 * device + 1]);
            }
        }
    }
    registers
}

#[test]
fn write_to_one_device_leaves_the_others_as_they_are() {
    let bus = Bus::new();
    let mut driver: Driver<3> = driver(&bus);
    assert_eq!(driver.power_on(), Ok(()));
    assert_eq!(driver.set_intensity(2, 0x05), Ok(()));
    assert_eq!(driver.write_str(1, b"12345678", 0b0000_0001), Ok(()));
    let registers = registers_after(3, &bus.frames());
    for device in 0..3 {
        assert_eq!(registers[device][0x0C], Some(0x01));
        assert_eq!(registers[device][0x0F], Some(0x00));
        assert_eq!(registers[device][0x0B], Some(0x07));
        assert_eq!(registers[device][0x09], Some(0x00));
    }
    assert_eq!(registers[0][0x0A], None);
    assert_eq!(registers[1][0x0A], None);
    assert_eq!(registers[2][0x0A], Some(0x05));
    for digit in 1..=8 {
        assert_eq!(registers[0][digit], Some(0x00));
        assert_eq!(registers[2][digit], Some(0x00));
    }
    let shown: Vec<Option<u8>> = (1..=8).rev().map(|digit| registers[1][digit]).collect();
    assert_eq!(
        shown,
        vec![
            Some(0x30),
            Some(0x6D),
            Some(0x79),
            Some(0x33),
            Some(0x5B),
            Some(0x5F),
            Some(0x70),
            Some(0xFF),
        ]
    );
}

#[test]
fn forced_decode_mode_is_programmed_on_the_addressed_device() {
    let bus = Bus::new();
    let mut driver: Driver<3> = driver(&bus);
    let mark = bus.mark();
    assert_eq!(driver.write_bcd(2, b"   -   -"), Ok(()));
    let sent = bus.since(mark);
    assert_eq!(sent.len(), 10);
    assert_eq!(sent[0], frame(3, 2, 0x09, 0xFF));
    for (position, latched) in sent[1..9].iter().enumerate() {
        let value = if position == 3 || position == 7 { 0x0A } else { 0x0F };
        assert_eq!(*latched, frame(3, 2, 8 - position as u8, value));
    }
    assert_eq!(sent[9], frame(3, 2, 0x09, 0x00));
}
