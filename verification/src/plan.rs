//! Frames, and the plans of frames that the driver's operations send.
//!
//! These are the mathematical statements of the protocol: which bytes make up a frame
//! for one device of a chain, and which frames, in which order, make up each operation.
//! The driver's contracts are written over them, and the laws at the end say what
//! follows from them.

use vstd::prelude::*;
use crate::connectors::{bit_of, frame_signals, lemma_frame_signals, Line, Signal};
use crate::encoding::{code_b, segments};
use crate::registers::{Command, DataError, DecodeMode};
use crate::trace::{broke_off_at, completed, Attempt};

verus! {

/// The longest chain that one driver addresses.
pub const MAX_DISPLAYS: usize = 8;

/// Digits per display.
pub const MAX_DIGITS: usize = 8;

/// The number of devices that a driver with chain parameter `d` addresses: `d`, held
/// between one and [`MAX_DISPLAYS`].
pub open spec fn chain_len(d: usize) -> nat {
    if d < 1 {
        1
    } else if d > MAX_DISPLAYS {
        MAX_DISPLAYS as nat
    } else {
        d as nat
    }
}

/// The frame that writes `value` to register `register` of the device at `addr` in a
/// chain of `devices`: two bytes per device, zero everywhere but in the slot of the
/// addressed device, which holds the register and the value.
pub open spec fn addressed_frame(devices: nat, addr: nat, register: u8, value: u8) -> Seq<u8> {
    Seq::new(
        2 * devices,
        |i: int|
            if i == 2 * addr {
                register
            } else if i == 2 * addr + 1 {
                value
            } else {
                0u8
            },
    )
}

/// The frame that writes `value` to register `register` of every device in a chain of
/// `devices`: the same two bytes in every slot.
pub open spec fn broadcast_frame(devices: nat, register: u8, value: u8) -> Seq<u8> {
    Seq::new(
        2 * devices,
        |i: int|
            if i % 2 == 0 {
                register
            } else {
                value
            },
    )
}

/// The frame that writes `value` to register `command` of the device at `addr`.
pub open spec fn command_frame(devices: nat, addr: nat, command: Command, value: u8) -> Seq<u8> {
    addressed_frame(devices, addr, command.spec_code(), value)
}

/// The frames that write the power register of every device, first device first.
pub open spec fn power_plan(devices: nat, value: u8) -> Seq<Seq<u8>> {
    Seq::new(devices, |i: int| command_frame(devices, i as nat, Command::Power, value))
}

/// The frames that take the device at `addr` from decode mode `from` to decode mode
/// `to`: none where the two are the same, else the one that writes the decode-mode
/// register.
pub open spec fn mode_switch(devices: nat, addr: nat, from: DecodeMode, to: DecodeMode) -> Seq<
    Seq<u8>,
> {
    if from == to {
        Seq::empty()
    } else {
        seq![command_frame(devices, addr, Command::DecodeMode, to.spec_code())]
    }
}

/// The address byte of the digit register that position `i` of eight values goes to:
/// counted down from the highest digit register, or up from the lowest.
pub open spec fn digit_register(i: int, descending: bool) -> u8 {
    if descending {
        (MAX_DIGITS - i) as u8
    } else {
        (i + 1) as u8
    }
}

/// The frames that write eight values to the eight digit registers of the device at
/// `addr`, value 0 first.
pub open spec fn digit_plan(devices: nat, addr: nat, values: Seq<u8>, descending: bool) -> Seq<
    Seq<u8>,
> {
    Seq::new(
        MAX_DIGITS as nat,
        |i: int| addressed_frame(devices, addr, digit_register(i, descending), values[i]),
    )
}

/// The frames of an operation that needs decode mode `forced` for its eight values:
/// the addressed device is switched to that mode where another one is remembered, the
/// values are written, and the device is switched back.
pub open spec fn forced_mode_plan(
    devices: nat,
    addr: nat,
    from: DecodeMode,
    forced: DecodeMode,
    values: Seq<u8>,
    descending: bool,
) -> Seq<Seq<u8>> {
    mode_switch(devices, addr, from, forced) + digit_plan(devices, addr, values, descending)
        + mode_switch(devices, addr, forced, from)
}

/// The frames that blank the eight digits of the device at `addr`.
pub open spec fn clear_plan(devices: nat, addr: nat) -> Seq<Seq<u8>> {
    digit_plan(devices, addr, Seq::new(MAX_DIGITS as nat, |i: int| 0u8), false)
}

/// The segment patterns of a string of eight characters. Character `i` has its
/// decimal point lit where bit `7 - i` of `dots` is set, so that the highest bit
/// belongs to the first character.
pub open spec fn string_patterns(string: Seq<u8>, dots: u8) -> Seq<u8> {
    Seq::new(MAX_DIGITS as nat, |i: int| segments(string[i], bit_of(dots, (7 - i) as u8)))
}

/// The Code-B values of a string of eight characters.
pub open spec fn string_codes(string: Seq<u8>) -> Seq<u8> {
    Seq::new(MAX_DIGITS as nat, |i: int| code_b(string[i]))
}

/// The frames that show a string of eight characters on the device at `addr`: raw
/// segment patterns, first character in the highest digit register.
pub open spec fn string_plan(
    devices: nat,
    addr: nat,
    from: DecodeMode,
    string: Seq<u8>,
    dots: u8,
) -> Seq<Seq<u8>> {
    forced_mode_plan(
        devices,
        addr,
        from,
        DecodeMode::NoDecode,
        string_patterns(string, dots),
        true,
    )
}

/// The frames that show a Code-B string of eight characters on the device at `addr`,
/// first character in the highest digit register.
pub open spec fn bcd_plan(devices: nat, addr: nat, from: DecodeMode, string: Seq<u8>) -> Seq<
    Seq<u8>,
> {
    forced_mode_plan(devices, addr, from, DecodeMode::CodeBDigits7_0, string_codes(string), true)
}

/// The frames that write eight raw segment patterns to the device at `addr`, first
/// pattern in the lowest digit register.
pub open spec fn raw_digits_plan(devices: nat, addr: nat, from: DecodeMode, raw: Seq<u8>) -> Seq<
    Seq<u8>,
> {
    forced_mode_plan(devices, addr, from, DecodeMode::NoDecode, raw, false)
}

/// The frames that set one device up: test mode off, all eight digits scanned, no
/// decoding, every digit blank.
pub open spec fn device_setup_plan(devices: nat, addr: nat) -> Seq<Seq<u8>> {
    seq![
        command_frame(devices, addr, Command::DisplayTest, 0x00),
        command_frame(devices, addr, Command::ScanLimit, 0x07),
        command_frame(devices, addr, Command::DecodeMode, DecodeMode::NoDecode.spec_code()),
    ] + clear_plan(devices, addr)
}

/// The frames that set up the first `upto` devices of the chain, first device first.
pub open spec fn setup_plan(devices: nat, upto: nat) -> Seq<Seq<u8>>
    decreases upto,
{
    if upto == 0 {
        Seq::empty()
    } else {
        setup_plan(devices, (upto - 1) as nat) + device_setup_plan(devices, (upto - 1) as nat)
    }
}

/// The frames of initialization: every device is set up, first device first, and then
/// every device is powered off.
pub open spec fn init_plan(devices: nat) -> Seq<Seq<u8>> {
    setup_plan(devices, devices) + power_plan(devices, 0x00)
}

/// How an operation that needs decode mode `forced` leaves the driver.
///
/// Where it succeeds, every frame of `plan` was sent and the remembered decode mode
/// is what it was. Where it fails, the frames before some frame `k` of the plan were
/// sent, frame `k` failed in the transport, and the error is the one that the
/// connector gave for it; the remembered mode is still the old one where the very
/// first frame failed, and `forced` after that.
pub open spec fn forced_mode_outcome(
    r: Result<(), DataError>,
    plan: Seq<Seq<u8>>,
    forced: DecodeMode,
    old_log: Seq<Attempt<Seq<u8>>>,
    old_mode: DecodeMode,
    new_log: Seq<Attempt<Seq<u8>>>,
    new_mode: DecodeMode,
) -> bool {
    match r {
        Ok(()) => new_log == old_log + completed(plan) && new_mode == old_mode,
        Err(e) => e.is_transport() && exists|k: int|
            #[trigger] broke_off_at(old_log, new_log, plan, k, e) && new_mode == (if k == 0 {
                old_mode
            } else {
                forced
            }),
    }
}

/// The shape of an addressed frame: it has two bytes for each device, holds the
/// register and the value in the slot of the addressed device, and is zero everywhere
/// else.
pub proof fn lemma_addressed_frame(devices: nat, addr: nat, register: u8, value: u8)
    requires
        addr < devices,
    ensures
        addressed_frame(devices, addr, register, value).len() == 2 * devices,
        addressed_frame(devices, addr, register, value)[2 * (addr as int)] == register,
        addressed_frame(devices, addr, register, value)[2 * (addr as int) + 1] == value,
        forall|i: int|
            0 <= i < 2 * devices && i != 2 * addr && i != 2 * addr + 1
                ==> #[trigger] addressed_frame(devices, addr, register, value)[i] == 0,
{
}

/// Initialization sends eleven frames for each device and then one more for each
/// device.
pub proof fn lemma_init_plan_len(devices: nat)
    ensures
        init_plan(devices).len() == 12 * devices,
{
    lemma_setup_plan_len(devices, devices);
}

/// Setting up `upto` devices takes eleven frames for each.
pub proof fn lemma_setup_plan_len(devices: nat, upto: nat)
    ensures
        setup_plan(devices, upto).len() == 11 * upto,
    decreases upto,
{
    if upto > 0 {
        lemma_setup_plan_len(devices, (upto - 1) as nat);
    }
}

/// The frames that set up the first `part` devices begin the frames that set up the
/// first `upto` devices, and so begin the whole initialization.
pub proof fn lemma_setup_plan_prefix(devices: nat, part: nat, upto: nat)
    requires
        part <= upto,
    ensures
        setup_plan(devices, part).len() == 11 * part,
        setup_plan(devices, upto).len() == 11 * upto,
        setup_plan(devices, upto).take(11 * (part as int)) == setup_plan(devices, part),
    decreases upto,
{
    lemma_setup_plan_len(devices, part);
    lemma_setup_plan_len(devices, upto);
    if part == upto {
        assert(setup_plan(devices, upto).take(11 * (part as int)) =~= setup_plan(devices, part));
    } else {
        lemma_setup_plan_prefix(devices, part, (upto - 1) as nat);
        lemma_setup_plan_len(devices, (upto - 1) as nat);
        assert(setup_plan(devices, upto).take(11 * (part as int)) =~= setup_plan(
            devices,
            (upto - 1) as nat,
        ).take(11 * (part as int)));
    }
}

/// Programming a decode mode twice writes the register once.
///
/// The first call writes the register unless the mode is already the remembered one.
/// After it the mode is remembered, so a second call with the same mode sends nothing:
/// the two calls together send one frame where the mode was new, and none where it was
/// not.
pub proof fn lemma_set_decode_mode_idempotent(
    devices: nat,
    addr: nat,
    remembered: DecodeMode,
    mode: DecodeMode,
)
    ensures
        mode_switch(devices, addr, mode, mode) == Seq::<Seq<u8>>::empty(),
        remembered != mode ==> mode_switch(devices, addr, remembered, mode) + mode_switch(
            devices,
            addr,
            mode,
            mode,
        ) == seq![command_frame(devices, addr, Command::DecodeMode, mode.spec_code())],
        remembered == mode ==> mode_switch(devices, addr, remembered, mode) + mode_switch(
            devices,
            addr,
            mode,
            mode,
        ) == Seq::<Seq<u8>>::empty(),
{
    assert(mode_switch(devices, addr, remembered, mode) + mode_switch(devices, addr, mode, mode)
        =~= mode_switch(devices, addr, remembered, mode));
}

/// The frames of an operation that needs another decode mode than the remembered one
/// are ten: the first switches the device to the needed mode, the next eight carry the
/// values, and the last switches the device back to the remembered mode.
pub proof fn lemma_forced_mode_plan_switches(
    devices: nat,
    addr: nat,
    from: DecodeMode,
    forced: DecodeMode,
    values: Seq<u8>,
    descending: bool,
)
    requires
        from != forced,
    ensures
        forced_mode_plan(devices, addr, from, forced, values, descending).len() == 10,
        forced_mode_plan(devices, addr, from, forced, values, descending)[0] == command_frame(
            devices,
            addr,
            Command::DecodeMode,
            forced.spec_code(),
        ),
        forall|i: int|
            0 <= i < 8 ==> #[trigger] forced_mode_plan(
                devices,
                addr,
                from,
                forced,
                values,
                descending,
            )[1 + i] == addressed_frame(devices, addr, digit_register(i, descending), values[i]),
        forced_mode_plan(devices, addr, from, forced, values, descending)[9] == command_frame(
            devices,
            addr,
            Command::DecodeMode,
            from.spec_code(),
        ),
{
}

/// The frames of an operation that needs the remembered decode mode are the eight
/// that carry the values.
pub proof fn lemma_forced_mode_plan_stays(
    devices: nat,
    addr: nat,
    mode: DecodeMode,
    values: Seq<u8>,
    descending: bool,
)
    ensures
        forced_mode_plan(devices, addr, mode, mode, values, descending) == digit_plan(
            devices,
            addr,
            values,
            descending,
        ),
{
    assert(forced_mode_plan(devices, addr, mode, mode, values, descending) =~= digit_plan(
        devices,
        addr,
        values,
        descending,
    ));
}

/// The frames of initialization, one by one.
///
/// Device `addr` is set up by the eleven frames from `11 * addr` on: test mode off,
/// scan limit seven, no decoding, and the digit registers from the lowest to the
/// highest set to zero. Behind the frames of the last device, frame `11 * devices +
/// addr` powers device `addr` off.
pub proof fn lemma_init_plan_frames(devices: nat, addr: nat)
    requires
        addr < devices,
    ensures
        init_plan(devices).len() == 12 * devices,
        init_plan(devices)[11 * (addr as int)] == command_frame(
            devices,
            addr,
            Command::DisplayTest,
            0x00,
        ),
        init_plan(devices)[11 * (addr as int) + 1] == command_frame(
            devices,
            addr,
            Command::ScanLimit,
            0x07,
        ),
        init_plan(devices)[11 * (addr as int) + 2] == command_frame(
            devices,
            addr,
            Command::DecodeMode,
            0x00,
        ),
        forall|digit: int|
            0 <= digit < 8 ==> #[trigger] init_plan(devices)[11 * (addr as int) + 3 + digit]
                == addressed_frame(devices, addr, (digit + 1) as u8, 0x00),
        init_plan(devices)[11 * (devices as int) + addr] == command_frame(
            devices,
            addr,
            Command::Power,
            0x00,
        ),
{
    lemma_setup_plan_prefix(devices, addr + 1, devices);
    lemma_setup_plan_prefix(devices, addr, addr + 1);
    let whole = init_plan(devices);
    let set_up = setup_plan(devices, devices);
    let upto = setup_plan(devices, addr + 1);
    let step = device_setup_plan(devices, addr);
    let first = 11 * (addr as int);
    assert(upto == setup_plan(devices, addr) + step);
    assert forall|k: int| 0 <= k < 11 implies whole[first + k] == step[k] by {
        assert(whole[first + k] == set_up[first + k]);
        assert(set_up.take(first + 11)[first + k] == set_up[first + k]);
        assert(upto[first + k] == step[k]);
    }
    assert(whole[first + 0] == step[0]);
    assert(whole[first + 1] == step[1]);
    assert(whole[first + 2] == step[2]);
    assert forall|digit: int| 0 <= digit < 8 implies #[trigger] whole[first + 3 + digit]
        == addressed_frame(devices, addr, (digit + 1) as u8, 0x00) by {
        assert(whole[first + (3 + digit)] == step[3 + digit]);
        assert(step[3 + digit] == clear_plan(devices, addr)[digit]);
    }
}

/// A register write for one device, as the chain sees it on its pins.
///
/// While byte `i` of the frame is clocked in, the data line carries the bits of the
/// register's address where `i` is the first byte of the addressed device's slot, the
/// bits of the value where it is the second, and stays low for every other byte: the
/// other devices are handed a no-op.
pub proof fn lemma_addressed_frame_on_the_pins(
    devices: nat,
    addr: nat,
    register: u8,
    value: u8,
    i: int,
    j: int,
)
    requires
        addr < devices,
        0 <= i < 2 * devices,
        0 <= j < 8,
    ensures
        frame_signals(addressed_frame(devices, addr, register, value))[1 + 24 * i + 3 * j] == (
        Signal {
            line: Line::Data,
            high: if i == 2 * addr {
                bit_of(register, (7 - j) as u8)
            } else if i == 2 * addr + 1 {
                bit_of(value, (7 - j) as u8)
            } else {
                false
            },
        }),
{
    let frame = addressed_frame(devices, addr, register, value);
    lemma_frame_signals(frame);
    let k = (7 - j) as u8;
    assert(!bit_of(0u8, k)) by (bit_vector);
    assert(frame_signals(frame)[1 + 24 * i + 3 * j] == (Signal {
        line: Line::Data,
        high: bit_of(frame[i], k),
    }));
}

/// Whether `frame` is a register write for one device of a chain of `devices`, and a
/// no-op for every other device.
pub open spec fn addresses_one_device(frame: Seq<u8>, devices: nat) -> bool {
    exists|addr: nat, register: u8, value: u8|
        addr < devices && frame == #[trigger] addressed_frame(devices, addr, register, value)
}

/// Every frame that switches the power, blanks a display, sets a decode mode or
/// writes digits is a register write for one device and a no-op for every other.
pub proof fn lemma_plans_address_one_device(
    devices: nat,
    addr: nat,
    from: DecodeMode,
    forced: DecodeMode,
    values: Seq<u8>,
    descending: bool,
    power: u8,
    i: int,
)
    requires
        addr < devices,
    ensures
        0 <= i < power_plan(devices, power).len() ==> addresses_one_device(
            power_plan(devices, power)[i],
            devices,
        ),
        0 <= i < clear_plan(devices, addr).len() ==> addresses_one_device(
            clear_plan(devices, addr)[i],
            devices,
        ),
        0 <= i < mode_switch(devices, addr, from, forced).len() ==> addresses_one_device(
            mode_switch(devices, addr, from, forced)[i],
            devices,
        ),
        0 <= i < forced_mode_plan(devices, addr, from, forced, values, descending).len()
            ==> addresses_one_device(
            forced_mode_plan(devices, addr, from, forced, values, descending)[i],
            devices,
        ),
{
    if 0 <= i < power_plan(devices, power).len() {
        assert(power_plan(devices, power)[i] == addressed_frame(
            devices,
            i as nat,
            Command::Power.spec_code(),
            power,
        ));
    }
    if 0 <= i < clear_plan(devices, addr).len() {
        assert(clear_plan(devices, addr)[i] == addressed_frame(
            devices,
            addr,
            digit_register(i, false),
            0x00,
        ));
    }
    if 0 <= i < mode_switch(devices, addr, from, forced).len() {
        assert(mode_switch(devices, addr, from, forced)[i] == addressed_frame(
            devices,
            addr,
            Command::DecodeMode.spec_code(),
            forced.spec_code(),
        ));
    }
    let plan = forced_mode_plan(devices, addr, from, forced, values, descending);
    if 0 <= i < plan.len() {
        if from == forced {
            lemma_forced_mode_plan_stays(devices, addr, from, values, descending);
            assert(plan[i] == addressed_frame(
                devices,
                addr,
                digit_register(i, descending),
                values[i],
            ));
        } else {
            lemma_forced_mode_plan_switches(devices, addr, from, forced, values, descending);
            if i == 0 {
                assert(plan[i] == addressed_frame(
                    devices,
                    addr,
                    Command::DecodeMode.spec_code(),
                    forced.spec_code(),
                ));
            } else if i == 9 {
                assert(plan[i] == addressed_frame(
                    devices,
                    addr,
                    Command::DecodeMode.spec_code(),
                    from.spec_code(),
                ));
            } else {
                assert(plan[1 + (i - 1)] == addressed_frame(
                    devices,
                    addr,
                    digit_register(i - 1, descending),
                    values[i - 1],
                ));
            }
        }
    }
}

/// Every frame of initialization is a register write for one device and a no-op for
/// every other.
pub proof fn lemma_init_plan_addresses_one_device(devices: nat, i: int)
    requires
        0 <= i < init_plan(devices).len(),
    ensures
        addresses_one_device(init_plan(devices)[i], devices),
{
    lemma_init_plan_len(devices);
    let plan = init_plan(devices);
    if i < 11 * devices {
        let addr = (i / 11) as nat;
        let step = i % 11;
        lemma_init_plan_frames(devices, addr);
        if step == 0 {
            assert(plan[i] == addressed_frame(
                devices,
                addr,
                Command::DisplayTest.spec_code(),
                0x00,
            ));
        } else if step == 1 {
            assert(plan[i] == addressed_frame(devices, addr, Command::ScanLimit.spec_code(), 0x07));
        } else if step == 2 {
            assert(plan[i] == addressed_frame(
                devices,
                addr,
                Command::DecodeMode.spec_code(),
                0x00,
            ));
        } else {
            assert(plan[11 * (addr as int) + 3 + (step - 3)] == addressed_frame(
                devices,
                addr,
                (step - 3 + 1) as u8,
                0x00,
            ));
        }
    } else {
        let addr = (i - 11 * devices) as nat;
        lemma_init_plan_frames(devices, addr);
        assert(plan[i] == addressed_frame(devices, addr, Command::Power.spec_code(), 0x00));
    }
}

} // verus!
