//! The device controller: the chip's commands, addressed to one device of the chain.
//!
//! Every operation is a plan of frames, sent in order through the connector. One frame
//! carries one register write for one device and a no-op for every other device, so
//! that a write to one device leaves the others as they are. The driver gives up at the
//! first frame that the connector fails to send and hands the connector's error on.

use vstd::prelude::*;
use vstd::slice::slice_subrange;
use crate::connectors::{
    bracket_plan, bus_frame, on_line, pin_plan, select_level, whole_frame, BracketLogs,
    Connector, Line, LogicPin, PinConnector, PinLogs, SerialBus, SpiConnector, SpiConnectorSW,
};
use crate::encoding::{
    base_10_bytes, bcd_byte, hex_bytes, hex_text, integer_text, lemma_hexadecimal_len,
    lemma_integer_text_range, pad_left, right_justified, ssb_byte,
};
use crate::plan::{
    addressed_frame, bcd_plan, broadcast_frame, chain_len, clear_plan, command_frame,
    device_setup_plan, digit_plan, digit_register, forced_mode_outcome, forced_mode_plan,
    init_plan, lemma_setup_plan_prefix, mode_switch, power_plan, raw_digits_plan, setup_plan,
    string_codes, string_patterns, string_plan, MAX_DIGITS, MAX_DISPLAYS,
};
use crate::registers::{Command, DataError, DecodeMode};
use crate::trace::{
    attempt, broke_off, broke_off_at, completed, lemma_accounts_for_completed,
    lemma_all_completed, lemma_broke_off_at_after_completed, lemma_broke_off_at_in_prefix,
    lemma_completed_after_completed, lemma_next_attempt, picked, plans_of, Attempt,
};

verus! {

/// Drives a chain of display chips through a connector.
///
/// `D` is the number of chained devices; a driver addresses [`chain_len`]`(D)` of
/// them. The driver remembers the decode mode that it last programmed, so that it can
/// skip a write that would change nothing and put the mode back after an operation
/// that needed another one.
pub struct MAX7219<const D: usize, CONNECTOR> {
    connector: CONNECTOR,
    decode_mode: DecodeMode,
}

impl<const D: usize, CONNECTOR: Connector> MAX7219<D, CONNECTOR> {
    /// The connector that this driver sends through.
    pub closed spec fn connector(&self) -> CONNECTOR {
        self.connector
    }

    /// Every frame that this driver's connector was handed, oldest first, each with
    /// the error that its transfer ended with, if any.
    pub open spec fn transfers(&self) -> Seq<Attempt<Seq<u8>>> {
        self.connector().transfers()
    }

    /// Whether the connector's records agree with each other and with its transport,
    /// which had the records `found` when the connector was made. A driver is built
    /// with records that agree, and every operation keeps them so.
    pub open spec fn consistent(&self, found: CONNECTOR::Found) -> bool {
        self.connector().consistent(found)
    }

    /// The decode mode that was last programmed.
    pub closed spec fn spec_decode_mode(&self) -> DecodeMode {
        self.decode_mode
    }

    /// The number of devices that this driver addresses.
    pub open spec fn spec_devices() -> usize {
        chain_len(D) as usize
    }

    /// The number of devices that this driver addresses.
    #[verifier::when_used_as_spec(spec_devices)]
    pub fn devices() -> (n: usize)
        ensures
            n == chain_len(D),
            1 <= n <= MAX_DISPLAYS,
    {
        if D < 1 {
            1
        } else if D > MAX_DISPLAYS {
            MAX_DISPLAYS
        } else {
            D
        }
    }

    /// The decode mode that was last programmed.
    #[verifier::when_used_as_spec(spec_decode_mode)]
    pub fn decode_mode(&self) -> (mode: DecodeMode)
        ensures
            mode == self.spec_decode_mode(),
    {
        self.decode_mode
    }

    /// Hands `buffer` to the connector as one frame, whatever it holds.
    pub fn write_raw_bytes(&mut self, buffer: &[u8]) -> (r: Result<(), DataError>)
        ensures
            forall|found: CONNECTOR::Found|
                old(self).consistent(found) ==> #[trigger] final(self).consistent(found),
            r matches Err(e) ==> CONNECTOR::reports(e),
            final(self).transfers() == old(self).transfers().push(
                attempt(buffer@, r),
            ),
            final(self).decode_mode() == old(self).decode_mode(),
            r matches Err(e) ==> e.is_transport(),
    {
        self.connector.write_raw_bytes(buffer)
    }

    /// Writes `data` to the register with address byte `header` of the device at `addr`.
    ///
    /// An address outside the chain is refused before anything is sent. Otherwise one
    /// frame is sent: [`addressed_frame`].
    pub fn write_raw_byte(&mut self, addr: usize, header: u8, data: u8) -> (r: Result<
        (),
        DataError,
    >)
        ensures
            forall|found: CONNECTOR::Found|
                old(self).consistent(found) ==> #[trigger] final(self).consistent(found),
            r matches Err(e) ==> e == DataError::AddressOutOfRange || CONNECTOR::reports(e),
            final(self).decode_mode() == old(self).decode_mode(),
            addr >= Self::devices() ==> r == Err::<(), DataError>(DataError::AddressOutOfRange)
                && final(self).transfers() == old(self).transfers(),
            addr < Self::devices() ==> final(self).transfers() == old(self).transfers().push(
                attempt(addressed_frame(Self::devices() as nat, addr as nat, header, data), r),
            ) && (r matches Err(e) ==> e.is_transport()),
    {
        let devices: usize = Self::devices();
        if addr >= devices {
            return Err(DataError::AddressOutOfRange);
        }
        let mut buffer: [u8; 16] = [0u8;16];
        buffer[2 * addr] = header;
        buffer[2 * addr + 1] = data;
        let frame = slice_subrange(buffer.as_slice(), 0, 2 * devices);
        assert(frame@ =~= addressed_frame(devices as nat, addr as nat, header, data));
        self.connector.write_raw_bytes(frame)
    }

    /// Writes `data` to register `command` of the device at `addr`.
    pub fn write_command(&mut self, addr: usize, command: Command, data: u8) -> (r: Result<
        (),
        DataError,
    >)
        ensures
            forall|found: CONNECTOR::Found|
                old(self).consistent(found) ==> #[trigger] final(self).consistent(found),
            r matches Err(e) ==> e == DataError::AddressOutOfRange || CONNECTOR::reports(e),
            final(self).decode_mode() == old(self).decode_mode(),
            addr >= Self::devices() ==> r == Err::<(), DataError>(DataError::AddressOutOfRange)
                && final(self).transfers() == old(self).transfers(),
            addr < Self::devices() ==> final(self).transfers() == old(self).transfers().push(
                attempt(command_frame(Self::devices() as nat, addr as nat, command, data), r),
            ) && (r matches Err(e) ==> e.is_transport()),
    {
        self.write_raw_byte(addr, command.code(), data)
    }

    /// Sends the next frame of a plan of which the first `pos` frames are sent.
    fn send_next(
        &mut self,
        addr: usize,
        header: u8,
        data: u8,
        Ghost(before): Ghost<Seq<Attempt<Seq<u8>>>>,
        Ghost(plan): Ghost<Seq<Seq<u8>>>,
        Ghost(pos): Ghost<int>,
    ) -> (r: Result<(), DataError>)
        requires
            addr < Self::devices(),
            0 <= pos < plan.len(),
            plan[pos] == addressed_frame(Self::devices() as nat, addr as nat, header, data),
            old(self).transfers() == before + completed(plan.take(pos)),
        ensures
            forall|found: CONNECTOR::Found|
                old(self).consistent(found) ==> #[trigger] final(self).consistent(found),
            r matches Err(e) ==> CONNECTOR::reports(e),
            final(self).decode_mode() == old(self).decode_mode(),
            r is Ok ==> final(self).transfers() == before + completed(plan.take(pos + 1)),
            r matches Err(e) ==> e.is_transport() && broke_off_at(
                before,
                final(self).transfers(),
                plan,
                pos,
                e,
            ),
    {
        let r = self.write_raw_byte(addr, header, data);
        proof {
            lemma_next_attempt(before, old(self).transfers(), plan, pos, r);
        }
        r
    }

    /// Writes eight values to the digit registers of the device at `addr`, as frames
    /// `offset` to `offset + 7` of a plan of which the frames before them are sent.
    fn write_registers(
        &mut self,
        addr: usize,
        values: &[u8; 8],
        descending: bool,
        Ghost(before): Ghost<Seq<Attempt<Seq<u8>>>>,
        Ghost(plan): Ghost<Seq<Seq<u8>>>,
        Ghost(offset): Ghost<int>,
    ) -> (r: Result<(), DataError>)
        requires
            addr < Self::devices(),
            0 <= offset,
            offset + MAX_DIGITS <= plan.len(),
            forall|i: int|
                0 <= i < MAX_DIGITS ==> plan[offset + i] == #[trigger] digit_plan(
                    Self::devices() as nat,
                    addr as nat,
                    values@,
                    descending,
                )[i],
            old(self).transfers() == before + completed(plan.take(offset)),
        ensures
            forall|found: CONNECTOR::Found|
                old(self).consistent(found) ==> #[trigger] final(self).consistent(found),
            r matches Err(e) ==> CONNECTOR::reports(e),
            final(self).decode_mode() == old(self).decode_mode(),
            r is Ok ==> final(self).transfers() == before + completed(
                plan.take(offset + MAX_DIGITS),
            ),
            r matches Err(e) ==> e.is_transport() && exists|k: int|
                offset <= k < offset + MAX_DIGITS && #[trigger] broke_off_at(
                    before,
                    final(self).transfers(),
                    plan,
                    k,
                    e,
                ),
    {
        let mut i: usize = 0;
        while i < MAX_DIGITS
            invariant
                i <= MAX_DIGITS,
                addr < Self::devices(),
                0 <= offset,
                offset + MAX_DIGITS <= plan.len(),
                forall|i: int|
                    0 <= i < MAX_DIGITS ==> plan[offset + i] == #[trigger] digit_plan(
                        Self::devices() as nat,
                        addr as nat,
                        values@,
                        descending,
                    )[i],
                self.transfers() == before + completed(plan.take(offset + i)),
                self.decode_mode() == old(self).decode_mode(),
                forall|found: CONNECTOR::Found|
                    old(self).consistent(found) ==> #[trigger] self.consistent(found),
            decreases MAX_DIGITS - i,
        {
            let register: u8 = if descending {
                (MAX_DIGITS - i) as u8
            } else {
                (i + 1) as u8
            };
            proof {
                let frames = digit_plan(Self::devices() as nat, addr as nat, values@, descending);
                assert(plan[offset + i] == frames[i as int]);
                assert(register == digit_register(i as int, descending));
            }
            self.send_next(
                addr,
                register,
                values[i],
                Ghost(before),
                Ghost(plan),
                Ghost(offset + i),
            )?;
            i = i + 1;
        }
        Ok(())
    }

    /// Writes the decode-mode register of the device at `addr`, whatever mode is
    /// remembered, as frame `pos` of a plan of which the frames before it are sent.
    /// The mode is remembered once the chip has it.
    fn program_decode_mode(
        &mut self,
        addr: usize,
        mode: DecodeMode,
        Ghost(before): Ghost<Seq<Attempt<Seq<u8>>>>,
        Ghost(plan): Ghost<Seq<Seq<u8>>>,
        Ghost(pos): Ghost<int>,
    ) -> (r: Result<(), DataError>)
        requires
            addr < Self::devices(),
            0 <= pos < plan.len(),
            plan[pos] == command_frame(
                Self::devices() as nat,
                addr as nat,
                Command::DecodeMode,
                mode.code(),
            ),
            old(self).transfers() == before + completed(plan.take(pos)),
        ensures
            forall|found: CONNECTOR::Found|
                old(self).consistent(found) ==> #[trigger] final(self).consistent(found),
            r matches Err(e) ==> CONNECTOR::reports(e),
            r is Ok ==> final(self).transfers() == before + completed(plan.take(pos + 1))
                && final(self).decode_mode() == mode,
            r matches Err(e) ==> e.is_transport() && broke_off_at(
                before,
                final(self).transfers(),
                plan,
                pos,
                e,
            ) && final(self).decode_mode() == old(self).decode_mode(),
    {
        self.send_next(
            addr,
            Command::DecodeMode.code(),
            mode.code(),
            Ghost(before),
            Ghost(plan),
            Ghost(pos),
        )?;
        let ghost sent = *self;
        self.decode_mode = mode;
        proof {
            assert(self.connector() == sent.connector());
            assert forall|found: CONNECTOR::Found|
                old(self).consistent(found) implies #[trigger] self.consistent(found) by {
                assert(sent.consistent(found));
            }
        }
        Ok(())
    }

    /// Programs the decode mode of the device at `addr`.
    ///
    /// Nothing is sent where `mode` is the mode that the driver remembers. Otherwise
    /// the decode-mode register is written, and `mode` is remembered once the write
    /// has completed. An address outside the chain is refused before anything is sent.
    pub fn set_decode_mode(&mut self, addr: usize, mode: DecodeMode) -> (r: Result<(), DataError>)
        ensures
            forall|found: CONNECTOR::Found|
                old(self).consistent(found) ==> #[trigger] final(self).consistent(found),
            r matches Err(e) ==> e == DataError::AddressOutOfRange || CONNECTOR::reports(e),
            addr >= Self::devices() ==> r == Err::<(), DataError>(DataError::AddressOutOfRange)
                && final(self).transfers() == old(self).transfers() && final(self).decode_mode()
                == old(self).decode_mode(),
            addr < Self::devices() ==> match r {
                Ok(()) => final(self).transfers() == old(self).transfers() + completed(
                    mode_switch(
                        Self::devices() as nat,
                        addr as nat,
                        old(self).decode_mode(),
                        mode,
                    ),
                ) && final(self).decode_mode() == mode,
                Err(e) => e.is_transport() && old(self).decode_mode() != mode && broke_off_at(
                    old(self).transfers(),
                    final(self).transfers(),
                    mode_switch(
                        Self::devices() as nat,
                        addr as nat,
                        old(self).decode_mode(),
                        mode,
                    ),
                    0,
                    e,
                ) && final(self).decode_mode() == old(self).decode_mode(),
            },
    {
        if addr >= Self::devices() {
            return Err(DataError::AddressOutOfRange);
        }
        let ghost before = self.transfers();
        let ghost plan = mode_switch(
            Self::devices() as nat,
            addr as nat,
            self.decode_mode(),
            mode,
        );
        proof {
            assert(before =~= before + completed(plan.take(0)));
        }
        if self.decode_mode != mode {
            self.program_decode_mode(addr, mode, Ghost(before), Ghost(plan), Ghost(0))?;
        }
        proof {
            lemma_all_completed(before, self.transfers(), plan);
        }
        Ok(())
    }

    /// Sets the brightness of the device at `addr`.
    ///
    /// The chip defines the values `0x00` to `0x0F`; `intensity` is written as it is.
    pub fn set_intensity(&mut self, addr: usize, intensity: u8) -> (r: Result<(), DataError>)
        ensures
            forall|found: CONNECTOR::Found|
                old(self).consistent(found) ==> #[trigger] final(self).consistent(found),
            r matches Err(e) ==> e == DataError::AddressOutOfRange || CONNECTOR::reports(e),
            final(self).decode_mode() == old(self).decode_mode(),
            addr >= Self::devices() ==> r == Err::<(), DataError>(DataError::AddressOutOfRange)
                && final(self).transfers() == old(self).transfers(),
            addr < Self::devices() ==> final(self).transfers() == old(self).transfers().push(
                attempt(
                    command_frame(
                        Self::devices() as nat,
                        addr as nat,
                        Command::Intensity,
                        intensity,
                    ),
                    r,
                ),
            ) && (r matches Err(e) ==> e.is_transport()),
    {
        self.write_command(addr, Command::Intensity, intensity)
    }

    /// Turns the test mode of the device at `addr` on or off. In test mode the chip
    /// lights every segment.
    pub fn test(&mut self, addr: usize, is_on: bool) -> (r: Result<(), DataError>)
        ensures
            forall|found: CONNECTOR::Found|
                old(self).consistent(found) ==> #[trigger] final(self).consistent(found),
            r matches Err(e) ==> e == DataError::AddressOutOfRange || CONNECTOR::reports(e),
            final(self).decode_mode() == old(self).decode_mode(),
            addr >= Self::devices() ==> r == Err::<(), DataError>(DataError::AddressOutOfRange)
                && final(self).transfers() == old(self).transfers(),
            addr < Self::devices() ==> final(self).transfers() == old(self).transfers().push(
                attempt(
                    command_frame(
                        Self::devices() as nat,
                        addr as nat,
                        Command::DisplayTest,
                        if is_on {
                            0x01u8
                        } else {
                            0x00u8
                        },
                    ),
                    r,
                ),
            ) && (r matches Err(e) ==> e.is_transport()),
    {
        let value: u8 = if is_on {
            0x01
        } else {
            0x00
        };
        self.write_command(addr, Command::DisplayTest, value)
    }

    /// Writes `value` to the power register of every device, first device first.
    fn power_all(&mut self, value: u8) -> (r: Result<(), DataError>)
        ensures
            forall|found: CONNECTOR::Found|
                old(self).consistent(found) ==> #[trigger] final(self).consistent(found),
            r matches Err(e) ==> CONNECTOR::reports(e),
            final(self).decode_mode() == old(self).decode_mode(),
            match r {
                Ok(()) => final(self).transfers() == old(self).transfers() + completed(
                    power_plan(Self::devices() as nat, value),
                ),
                Err(e) => e.is_transport() && broke_off(
                    old(self).transfers(),
                    final(self).transfers(),
                    power_plan(Self::devices() as nat, value),
                    e,
                ),
            },
    {
        let devices: usize = Self::devices();
        let ghost before = self.transfers();
        let ghost plan = power_plan(devices as nat, value);
        proof {
            assert(before =~= before + completed(plan.take(0)));
        }
        let mut i: usize = 0;
        while i < devices
            invariant
                i <= devices,
                devices == Self::devices(),
                plan == power_plan(devices as nat, value),
                self.transfers() == before + completed(plan.take(i as int)),
                self.decode_mode() == old(self).decode_mode(),
                before == old(self).transfers(),
                forall|found: CONNECTOR::Found|
                    old(self).consistent(found) ==> #[trigger] self.consistent(found),
            decreases devices - i,
        {
            self.send_next(
                i,
                Command::Power.code(),
                value,
                Ghost(before),
                Ghost(plan),
                Ghost(i as int),
            )?;
            i = i + 1;
        }
        proof {
            lemma_all_completed(before, self.transfers(), plan);
        }
        Ok(())
    }

    /// Powers on every device of the chain, first device first.
    pub fn power_on(&mut self) -> (r: Result<(), DataError>)
        ensures
            forall|found: CONNECTOR::Found|
                old(self).consistent(found) ==> #[trigger] final(self).consistent(found),
            r matches Err(e) ==> CONNECTOR::reports(e),
            final(self).decode_mode() == old(self).decode_mode(),
            match r {
                Ok(()) => final(self).transfers() == old(self).transfers() + completed(
                    power_plan(Self::devices() as nat, 0x01),
                ),
                Err(e) => e.is_transport() && broke_off(
                    old(self).transfers(),
                    final(self).transfers(),
                    power_plan(Self::devices() as nat, 0x01),
                    e,
                ),
            },
    {
        self.power_all(0x01)
    }

    /// Powers off every device of the chain, first device first.
    pub fn power_off(&mut self) -> (r: Result<(), DataError>)
        ensures
            forall|found: CONNECTOR::Found|
                old(self).consistent(found) ==> #[trigger] final(self).consistent(found),
            r matches Err(e) ==> CONNECTOR::reports(e),
            final(self).decode_mode() == old(self).decode_mode(),
            match r {
                Ok(()) => final(self).transfers() == old(self).transfers() + completed(
                    power_plan(Self::devices() as nat, 0x00),
                ),
                Err(e) => e.is_transport() && broke_off(
                    old(self).transfers(),
                    final(self).transfers(),
                    power_plan(Self::devices() as nat, 0x00),
                    e,
                ),
            },
    {
        self.power_all(0x00)
    }

    /// Blanks the eight digits of the device at `addr`, lowest digit register first.
    pub fn clear_display(&mut self, addr: usize) -> (r: Result<(), DataError>)
        ensures
            forall|found: CONNECTOR::Found|
                old(self).consistent(found) ==> #[trigger] final(self).consistent(found),
            r matches Err(e) ==> e == DataError::AddressOutOfRange || CONNECTOR::reports(e),
            final(self).decode_mode() == old(self).decode_mode(),
            addr >= Self::devices() ==> r == Err::<(), DataError>(DataError::AddressOutOfRange)
                && final(self).transfers() == old(self).transfers(),
            addr < Self::devices() ==> match r {
                Ok(()) => final(self).transfers() == old(self).transfers() + completed(
                    clear_plan(Self::devices() as nat, addr as nat),
                ),
                Err(e) => e.is_transport() && broke_off(
                    old(self).transfers(),
                    final(self).transfers(),
                    clear_plan(Self::devices() as nat, addr as nat),
                    e,
                ),
            },
    {
        if addr >= Self::devices() {
            return Err(DataError::AddressOutOfRange);
        }
        let blank: [u8; 8] = [0u8;8];
        let ghost before = self.transfers();
        let ghost plan = clear_plan(Self::devices() as nat, addr as nat);
        proof {
            assert(before =~= before + completed(plan.take(0)));
            assert(blank@ =~= Seq::new(MAX_DIGITS as nat, |i: int| 0u8));
        }
        self.write_registers(addr, &blank, false, Ghost(before), Ghost(plan), Ghost(0))?;
        proof {
            lemma_all_completed(before, self.transfers(), plan);
        }
        Ok(())
    }

    /// Writes zero to the highest digit register of every device with one frame that
    /// addresses all of them.
    pub fn clear_all_displays(&mut self) -> (r: Result<(), DataError>)
        ensures
            forall|found: CONNECTOR::Found|
                old(self).consistent(found) ==> #[trigger] final(self).consistent(found),
            r matches Err(e) ==> CONNECTOR::reports(e),
            final(self).decode_mode() == old(self).decode_mode(),
            final(self).transfers() == old(self).transfers().push(
                attempt(broadcast_frame(Self::devices() as nat, Command::Digit7.code(), 0x00), r),
            ),
            r matches Err(e) ==> e.is_transport(),
    {
        let devices: usize = Self::devices();
        let mut buffer: [u8; 16] = [0u8;16];
        let mut display: usize = 0;
        while display < devices
            invariant
                display <= devices <= MAX_DISPLAYS,
                forall|i: int|
                    0 <= i < 2 * display ==> buffer@[i] == (if i % 2 == 0 {
                        Command::Digit7.code()
                    } else {
                        0x00u8
                    }),
            decreases devices - display,
        {
            buffer[display * 2] = Command::Digit7.code();
            buffer[display * 2 + 1] = 0x00;
            display = display + 1;
        }
        let frame = slice_subrange(buffer.as_slice(), 0, 2 * devices);
        assert(frame@ =~= broadcast_frame(devices as nat, Command::Digit7.code(), 0x00));
        self.connector.write_raw_bytes(frame)
    }

    /// Writes eight values to the digit registers of the device at `addr` with that
    /// device in decode mode `forced`, and puts the decode mode back.
    fn write_with_mode(
        &mut self,
        addr: usize,
        values: &[u8; 8],
        forced: DecodeMode,
        descending: bool,
    ) -> (r: Result<(), DataError>)
        ensures
            forall|found: CONNECTOR::Found|
                old(self).consistent(found) ==> #[trigger] final(self).consistent(found),
            r matches Err(e) ==> e == DataError::AddressOutOfRange || CONNECTOR::reports(e),
            addr >= Self::devices() ==> r == Err::<(), DataError>(DataError::AddressOutOfRange)
                && final(self).transfers() == old(self).transfers() && final(self).decode_mode()
                == old(self).decode_mode(),
            addr < Self::devices() ==> forced_mode_outcome(
                r,
                forced_mode_plan(
                    Self::devices() as nat,
                    addr as nat,
                    old(self).decode_mode(),
                    forced,
                    values@,
                    descending,
                ),
                forced,
                old(self).transfers(),
                old(self).decode_mode(),
                final(self).transfers(),
                final(self).decode_mode(),
            ),
    {
        if addr >= Self::devices() {
            return Err(DataError::AddressOutOfRange);
        }
        let previous = self.decode_mode;
        let ghost devices = Self::devices() as nat;
        let ghost before = self.transfers();
        let ghost plan = forced_mode_plan(
            devices,
            addr as nat,
            previous,
            forced,
            values@,
            descending,
        );
        let ghost lead: int = if previous == forced {
            0
        } else {
            1
        };
        proof {
            assert(before =~= before + completed(plan.take(0)));
        }
        if previous != forced {
            self.program_decode_mode(addr, forced, Ghost(before), Ghost(plan), Ghost(0))?;
        }
        assert forall|i: int| 0 <= i < MAX_DIGITS implies plan[lead + i] == #[trigger] digit_plan(
            devices,
            addr as nat,
            values@,
            descending,
        )[i] by {}
        match self.write_registers(
            addr,
            values,
            descending,
            Ghost(before),
            Ghost(plan),
            Ghost(lead),
        ) {
            Ok(()) => {},
            Err(e) => {
                proof {
                    let k = choose|k: int|
                        lead <= k < lead + MAX_DIGITS && #[trigger] broke_off_at(
                            before,
                            self.transfers(),
                            plan,
                            k,
                            e,
                        );
                    assert(broke_off_at(before, self.transfers(), plan, k, e));
                }
                return Err(e);
            },
        }
        if previous != forced {
            self.program_decode_mode(
                addr,
                previous,
                Ghost(before),
                Ghost(plan),
                Ghost(lead + MAX_DIGITS),
            )?;
        }
        proof {
            lemma_all_completed(before, self.transfers(), plan);
        }
        Ok(())
    }

    /// Shows a string of eight characters on the device at `addr`.
    ///
    /// The characters are turned into segment patterns and written with the device
    /// in [`DecodeMode::NoDecode`]: the first character goes to the highest digit
    /// register, the last to the lowest. Character `i` has its decimal point lit where
    /// bit `7 - i` of `dots` is set. Afterwards the decode mode is what it was before
    /// the call. An address outside the chain is refused before anything is sent.
    pub fn write_str(&mut self, addr: usize, string: &[u8; 8], dots: u8) -> (r: Result<
        (),
        DataError,
    >)
        ensures
            forall|found: CONNECTOR::Found|
                old(self).consistent(found) ==> #[trigger] final(self).consistent(found),
            r matches Err(e) ==> e == DataError::AddressOutOfRange || CONNECTOR::reports(e),
            addr >= Self::devices() ==> r == Err::<(), DataError>(DataError::AddressOutOfRange)
                && final(self).transfers() == old(self).transfers() && final(self).decode_mode()
                == old(self).decode_mode(),
            addr < Self::devices() ==> forced_mode_outcome(
                r,
                string_plan(
                    Self::devices() as nat,
                    addr as nat,
                    old(self).decode_mode(),
                    string@,
                    dots,
                ),
                DecodeMode::NoDecode,
                old(self).transfers(),
                old(self).decode_mode(),
                final(self).transfers(),
                final(self).decode_mode(),
            ),
    {
        let mut patterns: [u8; 8] = [0u8;8];
        let mut i: usize = 0;
        while i < MAX_DIGITS
            invariant
                i <= MAX_DIGITS,
                forall|k: int|
                    0 <= k < i ==> patterns@[k] == #[trigger] string_patterns(string@, dots)[k],
            decreases MAX_DIGITS - i,
        {
            let dot = dots & (1u8 << (7 - i as u8)) != 0;
            patterns[i] = ssb_byte(string[i], dot);
            i = i + 1;
        }
        assert(patterns@ =~= string_patterns(string@, dots));
        self.write_with_mode(addr, &patterns, DecodeMode::NoDecode, true)
    }

    /// Shows a Code-B string of eight characters on the device at `addr`.
    ///
    /// The characters are turned into Code-B values and written with the device in
    /// [`DecodeMode::CodeBDigits7_0`]: the first character goes to the highest digit
    /// register, the last to the lowest. Afterwards the decode mode is what it was
    /// before the call. An address outside the chain is refused before anything is
    /// sent.
    pub fn write_bcd(&mut self, addr: usize, bcd: &[u8; 8]) -> (r: Result<(), DataError>)
        ensures
            forall|found: CONNECTOR::Found|
                old(self).consistent(found) ==> #[trigger] final(self).consistent(found),
            r matches Err(e) ==> e == DataError::AddressOutOfRange || CONNECTOR::reports(e),
            addr >= Self::devices() ==> r == Err::<(), DataError>(DataError::AddressOutOfRange)
                && final(self).transfers() == old(self).transfers() && final(self).decode_mode()
                == old(self).decode_mode(),
            addr < Self::devices() ==> forced_mode_outcome(
                r,
                bcd_plan(Self::devices() as nat, addr as nat, old(self).decode_mode(), bcd@),
                DecodeMode::CodeBDigits7_0,
                old(self).transfers(),
                old(self).decode_mode(),
                final(self).transfers(),
                final(self).decode_mode(),
            ),
    {
        let mut codes: [u8; 8] = [0u8;8];
        let mut i: usize = 0;
        while i < MAX_DIGITS
            invariant
                i <= MAX_DIGITS,
                forall|k: int| 0 <= k < i ==> codes@[k] == #[trigger] string_codes(bcd@)[k],
            decreases MAX_DIGITS - i,
        {
            codes[i] = bcd_byte(bcd[i]);
            i = i + 1;
        }
        assert(codes@ =~= string_codes(bcd@));
        self.write_with_mode(addr, &codes, DecodeMode::CodeBDigits7_0, true)
    }

    /// Writes eight raw segment patterns to the device at `addr`.
    ///
    /// The patterns are written as they are, with the device in
    /// [`DecodeMode::NoDecode`]: the first pattern goes to the lowest digit register,
    /// the last to the highest. Afterwards the decode mode is what it was before the
    /// call. An address outside the chain is refused before anything is sent.
    pub fn write_digits(&mut self, addr: usize, raw: &[u8; 8]) -> (r: Result<(), DataError>)
        ensures
            forall|found: CONNECTOR::Found|
                old(self).consistent(found) ==> #[trigger] final(self).consistent(found),
            r matches Err(e) ==> e == DataError::AddressOutOfRange || CONNECTOR::reports(e),
            addr >= Self::devices() ==> r == Err::<(), DataError>(DataError::AddressOutOfRange)
                && final(self).transfers() == old(self).transfers() && final(self).decode_mode()
                == old(self).decode_mode(),
            addr < Self::devices() ==> forced_mode_outcome(
                r,
                raw_digits_plan(
                    Self::devices() as nat,
                    addr as nat,
                    old(self).decode_mode(),
                    raw@,
                ),
                DecodeMode::NoDecode,
                old(self).transfers(),
                old(self).decode_mode(),
                final(self).transfers(),
                final(self).decode_mode(),
            ),
    {
        self.write_with_mode(addr, raw, DecodeMode::NoDecode, false)
    }

    /// Shows a signed value in decimal on the device at `addr`, right-justified.
    ///
    /// A value from -9 999 999 to 99 999 999 is shown with its sign; any other is
    /// shown as `Err`. The text goes the way of [`MAX7219::write_str`], without
    /// decimal points.
    pub fn write_integer(&mut self, addr: usize, value: i32) -> (r: Result<(), DataError>)
        ensures
            forall|found: CONNECTOR::Found|
                old(self).consistent(found) ==> #[trigger] final(self).consistent(found),
            r matches Err(e) ==> e == DataError::AddressOutOfRange || CONNECTOR::reports(e),
            addr >= Self::devices() ==> r == Err::<(), DataError>(DataError::AddressOutOfRange)
                && final(self).transfers() == old(self).transfers() && final(self).decode_mode()
                == old(self).decode_mode(),
            addr < Self::devices() ==> forced_mode_outcome(
                r,
                string_plan(
                    Self::devices() as nat,
                    addr as nat,
                    old(self).decode_mode(),
                    right_justified(integer_text(value as int)),
                    0x00,
                ),
                DecodeMode::NoDecode,
                old(self).transfers(),
                old(self).decode_mode(),
                final(self).transfers(),
                final(self).decode_mode(),
            ),
    {
        let mut buf: [u8; 8] = [0u8;8];
        let text = base_10_bytes(value, &mut buf);
        proof {
            lemma_integer_text_range(value as int);
        }
        let field = pad_left(text);
        self.write_str(addr, &field, 0x00)
    }

    /// Shows an unsigned value in hexadecimal on the device at `addr`, right-justified
    /// and in lower case.
    ///
    /// The text goes the way of [`MAX7219::write_str`], without decimal points.
    pub fn write_hex(&mut self, addr: usize, value: u32) -> (r: Result<(), DataError>)
        ensures
            forall|found: CONNECTOR::Found|
                old(self).consistent(found) ==> #[trigger] final(self).consistent(found),
            r matches Err(e) ==> e == DataError::AddressOutOfRange || CONNECTOR::reports(e),
            addr >= Self::devices() ==> r == Err::<(), DataError>(DataError::AddressOutOfRange)
                && final(self).transfers() == old(self).transfers() && final(self).decode_mode()
                == old(self).decode_mode(),
            addr < Self::devices() ==> forced_mode_outcome(
                r,
                string_plan(
                    Self::devices() as nat,
                    addr as nat,
                    old(self).decode_mode(),
                    right_justified(hex_text(value as nat)),
                    0x00,
                ),
                DecodeMode::NoDecode,
                old(self).transfers(),
                old(self).decode_mode(),
                final(self).transfers(),
                final(self).decode_mode(),
            ),
    {
        let mut buf: [u8; 8] = [0u8;8];
        let text = hex_bytes(value, &mut buf);
        proof {
            lemma_hexadecimal_len(value as nat);
        }
        let field = pad_left(text);
        self.write_str(addr, &field, 0x00)
    }

    /// Sets up the device at `addr`: test mode off, all eight digits scanned, no
    /// decoding, every digit blank. The decode-mode register is written whatever mode
    /// is remembered.
    fn setup_device(&mut self, addr: usize) -> (r: Result<(), DataError>)
        requires
            addr < Self::devices(),
        ensures
            forall|found: CONNECTOR::Found|
                old(self).consistent(found) ==> #[trigger] final(self).consistent(found),
            r matches Err(e) ==> CONNECTOR::reports(e),
            match r {
                Ok(()) => final(self).transfers() == old(self).transfers() + completed(
                    device_setup_plan(Self::devices() as nat, addr as nat),
                ) && final(self).decode_mode() == DecodeMode::NoDecode,
                Err(e) => e.is_transport() && exists|k: int|
                    #[trigger] broke_off_at(
                        old(self).transfers(),
                        final(self).transfers(),
                        device_setup_plan(Self::devices() as nat, addr as nat),
                        k,
                        e,
                    ) && final(self).decode_mode() == (if k <= 2 {
                        old(self).decode_mode()
                    } else {
                        DecodeMode::NoDecode
                    }),
            },
    {
        let ghost before = self.transfers();
        let ghost plan = device_setup_plan(Self::devices() as nat, addr as nat);
        proof {
            assert(before =~= before + completed(plan.take(0)));
        }
        self.send_next(
            addr,
            Command::DisplayTest.code(),
            0x00,
            Ghost(before),
            Ghost(plan),
            Ghost(0),
        )?;
        self.send_next(
            addr,
            Command::ScanLimit.code(),
            0x07,
            Ghost(before),
            Ghost(plan),
            Ghost(1),
        )?;
        self.program_decode_mode(
            addr,
            DecodeMode::NoDecode,
            Ghost(before),
            Ghost(plan),
            Ghost(2),
        )?;
        let blank: [u8; 8] = [0u8;8];
        proof {
            assert(blank@ =~= Seq::new(MAX_DIGITS as nat, |i: int| 0u8));
            assert forall|i: int| 0 <= i < MAX_DIGITS implies plan[3 + i] == #[trigger] digit_plan(
                Self::devices() as nat,
                addr as nat,
                blank@,
                false,
            )[i] by {
                assert(plan[3 + i] == clear_plan(Self::devices() as nat, addr as nat)[i]);
            }
        }
        match self.write_registers(addr, &blank, false, Ghost(before), Ghost(plan), Ghost(3)) {
            Ok(()) => {},
            Err(e) => {
                proof {
                    let k = choose|k: int|
                        3 <= k < 3 + MAX_DIGITS && #[trigger] broke_off_at(
                            before,
                            self.transfers(),
                            plan,
                            k,
                            e,
                        );
                    assert(broke_off_at(before, self.transfers(), plan, k, e));
                }
                return Err(e);
            },
        }
        proof {
            lemma_all_completed(before, self.transfers(), plan);
        }
        Ok(())
    }

    /// Initializes the chain.
    ///
    /// Every device is set up in turn, first device first: its test mode is turned
    /// off, its scan limit is set to all eight digits, its decode mode to
    /// [`DecodeMode::NoDecode`], and its eight digits are blanked. Then every device is
    /// powered off. The decode-mode register of every device is written whatever mode
    /// the driver remembers, so that a chain in an unknown state is brought to a known
    /// one.
    pub fn init(&mut self) -> (r: Result<(), DataError>)
        ensures
            forall|found: CONNECTOR::Found|
                old(self).consistent(found) ==> #[trigger] final(self).consistent(found),
            r matches Err(e) ==> CONNECTOR::reports(e),
            match r {
                Ok(()) => final(self).transfers() == old(self).transfers() + completed(
                    init_plan(Self::devices() as nat),
                ) && final(self).decode_mode() == DecodeMode::NoDecode,
                Err(e) => e.is_transport() && exists|k: int|
                    #[trigger] broke_off_at(
                        old(self).transfers(),
                        final(self).transfers(),
                        init_plan(Self::devices() as nat),
                        k,
                        e,
                    ) && final(self).decode_mode() == (if k <= 2 {
                        old(self).decode_mode()
                    } else {
                        DecodeMode::NoDecode
                    }),
            },
    {
        let devices: usize = Self::devices();
        let ghost before = self.transfers();
        let ghost whole = init_plan(devices as nat);
        proof {
            assert(before =~= before + completed(setup_plan(devices as nat, 0)));
        }
        let mut i: usize = 0;
        while i < devices
            invariant
                i <= devices,
                devices == Self::devices(),
                before == old(self).transfers(),
                whole == init_plan(devices as nat),
                self.transfers() == before + completed(setup_plan(devices as nat, i as nat)),
                self.decode_mode() == (if i == 0 {
                    old(self).decode_mode()
                } else {
                    DecodeMode::NoDecode
                }),
                forall|found: CONNECTOR::Found|
                    old(self).consistent(found) ==> #[trigger] self.consistent(found),
            decreases devices - i,
        {
            let ghost reached = self.transfers();
            let ghost done = setup_plan(devices as nat, i as nat);
            let ghost step = device_setup_plan(devices as nat, i as nat);
            match self.setup_device(i) {
                Ok(()) => {
                    proof {
                        lemma_completed_after_completed(
                            before,
                            reached,
                            self.transfers(),
                            done,
                            step,
                        );
                    }
                },
                Err(e) => {
                    proof {
                        let k = choose|k: int|
                            #[trigger] broke_off_at(reached, self.transfers(), step, k, e)
                                && self.decode_mode() == (if k <= 2 {
                                    if i == 0 {
                                        old(self).decode_mode()
                                    } else {
                                        DecodeMode::NoDecode
                                    }
                                } else {
                                    DecodeMode::NoDecode
                                });
                        lemma_broke_off_at_after_completed(
                            before,
                            reached,
                            self.transfers(),
                            done,
                            step,
                            k,
                            e,
                        );
                        lemma_setup_plan_prefix(devices as nat, (i + 1) as nat, devices as nat);
                        let set_up = setup_plan(devices as nat, devices as nat);
                        assert(whole.take(11 * (i + 1)) =~= set_up.take(11 * (i + 1)));
                        lemma_setup_plan_prefix(devices as nat, i as nat, (i + 1) as nat);
                        lemma_broke_off_at_in_prefix(
                            before,
                            self.transfers(),
                            done + step,
                            whole,
                            done.len() + k,
                            e,
                        );
                    }
                    return Err(e);
                },
            }
            i = i + 1;
        }
        let ghost reached = self.transfers();
        let ghost set_up = setup_plan(devices as nat, devices as nat);
        let ghost power = power_plan(devices as nat, 0x00);
        match self.power_off() {
            Ok(()) => {
                proof {
                    lemma_completed_after_completed(
                        before,
                        reached,
                        self.transfers(),
                        set_up,
                        power,
                    );
                }
                Ok(())
            },
            Err(e) => {
                proof {
                    let k = choose|k: int| broke_off_at(reached, self.transfers(), power, k, e);
                    lemma_broke_off_at_after_completed(
                        before,
                        reached,
                        self.transfers(),
                        set_up,
                        power,
                        k,
                        e,
                    );
                    lemma_setup_plan_prefix(devices as nat, devices as nat, devices as nat);
                }
                Err(e)
            },
        }
    }

    /// A driver over `connector` that remembers `mode`, with nothing sent.
    pub(crate) fn resume(connector: CONNECTOR, mode: DecodeMode) -> (driver: Self)
        ensures
            driver.connector() == connector,
            driver.decode_mode() == mode,
    {
        MAX7219 { connector, decode_mode: mode }
    }

    /// Gives the connector back.
    pub(crate) fn into_connector(self) -> (connector: CONNECTOR)
        ensures
            connector == self.connector(),
    {
        self.connector
    }

    /// A driver over `connector`, with the chain initialized as by [`MAX7219::init`].
    fn new(connector: CONNECTOR) -> (r: Result<Self, DataError>)
        ensures
            match r {
                Ok(driver) => driver.transfers() == connector.transfers() + completed(
                    init_plan(Self::devices() as nat),
                ) && driver.decode_mode() == DecodeMode::NoDecode && (forall|
                    found: CONNECTOR::Found,
                |
                    connector.consistent(found) ==> #[trigger] driver.consistent(found)),
                Err(e) => e.is_transport() && CONNECTOR::reports(e),
            },
    {
        let mut driver = MAX7219 { connector, decode_mode: DecodeMode::NoDecode };
        match driver.init() {
            Ok(()) => Ok(driver),
            Err(e) => Err(e),
        }
    }
}

impl<const D: usize, DATA: LogicPin, CS: LogicPin, SCK: LogicPin> MAX7219<
    D,
    PinConnector<DATA, CS, SCK>,
> {
    /// A driver that toggles the data, select and clock pins itself, with the chain
    /// initialized.
    ///
    /// Where it succeeds, each pin has been asked for the signals of initialization on
    /// its line, after what it had been asked before, and for nothing else.
    pub fn from_pins(data: DATA, cs: CS, sck: SCK) -> (r: Result<Self, DataError>)
        ensures
            match r {
                Ok(driver) => {
                    let found = PinLogs {
                        data: data.driven(),
                        clock: sck.driven(),
                        select: cs.driven(),
                    };
                    let signals = completed(plans_of(init_plan(chain_len(D)), pin_plan()));
                    &&& driver.transfers() == completed(init_plan(chain_len(D)))
                    &&& driver.decode_mode() == DecodeMode::NoDecode
                    &&& driver.consistent(found)
                    &&& driver.connector().signals() == signals
                    &&& forall|line: Line| #[trigger]
                        driver.connector().pin_log(line) == found.on(line) + picked(
                            signals,
                            on_line(line),
                        )
                },
                Err(e) => e == DataError::Pin,
            },
    {
        let ghost found = PinLogs { data: data.driven(), clock: sck.driven(), select: cs.driven() };
        let connector = PinConnector::new(data, cs, sck);
        proof {
            assert(connector.transfers() + completed(init_plan(chain_len(D))) =~= completed(
                init_plan(chain_len(D)),
            ));
        }
        let r = MAX7219::new(connector);
        proof {
            if r is Ok {
                let made = r->Ok_0.connector();
                assert(r->Ok_0.consistent(found));
                lemma_accounts_for_completed(made.signals(), init_plan(chain_len(D)), pin_plan());
                assert(made.signals().skip(0) =~= made.signals());
                assert forall|line: Line| #[trigger]
                    made.pin_log(line) == found.on(line) + picked(
                        made.signals(),
                        on_line(line),
                    ) by {}
            }
        }
        r
    }
}

impl<const D: usize, SPI: SerialBus> MAX7219<D, SpiConnector<SPI>> {
    /// A driver over a serial bus that drives the select line on its own, with the
    /// chain initialized.
    ///
    /// The bus must clock data out most significant bit first, idle low, sampled on
    /// the rising edge, at no more than 10 MHz.
    ///
    /// Where it succeeds, the bus has been asked for the frames of initialization, after
    /// what it had been asked before, and for nothing else.
    pub fn from_spi(spi: SPI) -> (r: Result<Self, DataError>)
        ensures
            match r {
                Ok(driver) => driver.transfers() == completed(init_plan(chain_len(D)))
                    && driver.decode_mode() == DecodeMode::NoDecode && driver.consistent(
                    spi.written(),
                ) && driver.connector().bus_log() == spi.written() + picked(
                    completed(init_plan(chain_len(D))),
                    whole_frame(),
                ),
                Err(e) => e == DataError::Spi,
            },
    {
        let ghost found = spi.written();
        let connector = SpiConnector::new(spi);
        proof {
            assert(connector.transfers() + completed(init_plan(chain_len(D))) =~= completed(
                init_plan(chain_len(D)),
            ));
        }
        let r = MAX7219::new(connector);
        proof {
            if r is Ok {
                let made = r->Ok_0.connector();
                assert(r->Ok_0.consistent(found));
                assert(made.transfers().skip(0) =~= made.transfers());
            }
        }
        r
    }
}

impl<const D: usize, SPI: SerialBus, CS: LogicPin> MAX7219<D, SpiConnectorSW<SPI, CS>> {
    /// A driver over a serial bus and a select pin that the driver holds low around
    /// each transfer, with the chain initialized.
    ///
    /// The bus must clock data out most significant bit first, idle low, sampled on
    /// the rising edge, at no more than 10 MHz.
    ///
    /// Where it succeeds, the select pin and the bus have been asked for the steps of
    /// initialization, after what they had been asked before, and for nothing else.
    pub fn from_spi_cs(spi: SPI, cs: CS) -> (r: Result<Self, DataError>)
        ensures
            match r {
                Ok(driver) => {
                    let found = BracketLogs { select: cs.driven(), bus: spi.written() };
                    let steps = completed(plans_of(init_plan(chain_len(D)), bracket_plan()));
                    &&& driver.transfers() == completed(init_plan(chain_len(D)))
                    &&& driver.decode_mode() == DecodeMode::NoDecode
                    &&& driver.consistent(found)
                    &&& driver.connector().steps() == steps
                    &&& driver.connector().select_log() == found.select + picked(
                        steps,
                        select_level(),
                    )
                    &&& driver.connector().bus_log() == found.bus + picked(steps, bus_frame())
                },
                Err(e) => e == DataError::Pin || e == DataError::Spi,
            },
    {
        let ghost found = BracketLogs { select: cs.driven(), bus: spi.written() };
        let connector = SpiConnectorSW::new(spi, cs);
        proof {
            assert(connector.transfers() + completed(init_plan(chain_len(D))) =~= completed(
                init_plan(chain_len(D)),
            ));
        }
        let r = MAX7219::new(connector);
        proof {
            if r is Ok {
                let made = r->Ok_0.connector();
                assert(r->Ok_0.consistent(found));
                lemma_accounts_for_completed(made.steps(), init_plan(chain_len(D)), bracket_plan());
                assert(made.steps().skip(0) =~= made.steps());
            }
        }
        r
    }
}

} // verus!
