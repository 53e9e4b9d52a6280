//! The driver's decisions without a transport.
//!
//! A [`Sequencer`] answers every operation of the driver with the frames that the
//! operation sends, in order, and sends nothing itself. Whoever holds the transport
//! sends the frames one by one, tells the sequencer of each frame that went out, and
//! stops at the first that did not. This is the way to drive a chain over a transport
//! on which the caller has to wait.

use vstd::prelude::*;
use vstd::slice::slice_to_vec;
use crate::connectors::{whole_frame, BusFault, BusLog, SerialBus, SpiConnector};
use crate::driver::MAX7219;
use crate::encoding::{integer_text, hex_text, right_justified};
use crate::plan::{
    addressed_frame, bcd_plan, broadcast_frame, chain_len, clear_plan, command_frame, init_plan,
    mode_switch, power_plan, raw_digits_plan, string_plan,
};
use crate::registers::{Command, DataError, DecodeMode};
use crate::trace::{
    broke_off, broke_off_at, completed, failed, lemma_broke_off_ends_failed, lemma_picked_all,
    picked, Attempt,
};

verus! {

/// One frame of an operation, with the decode mode that is remembered once the frame
/// has gone out.
pub struct Step {
    frame: Vec<u8>,
    mode: DecodeMode,
}

impl Step {
    /// The bytes of the frame.
    pub closed spec fn spec_frame(&self) -> Seq<u8> {
        self.frame@
    }

    /// The decode mode that is remembered once the frame has gone out.
    pub closed spec fn spec_mode(&self) -> DecodeMode {
        self.mode
    }

    /// The bytes of the frame.
    pub fn frame(&self) -> (bytes: &[u8])
        ensures
            bytes@ == self.spec_frame(),
    {
        self.frame.as_slice()
    }

    /// The decode mode that is remembered once the frame has gone out.
    #[verifier::when_used_as_spec(spec_mode)]
    pub fn mode(&self) -> (mode: DecodeMode)
        ensures
            mode == self.spec_mode(),
    {
        self.mode
    }
}

/// The frames of a sequence of steps.
pub open spec fn frames_of(steps: Seq<Step>) -> Seq<Seq<u8>> {
    Seq::new(steps.len(), |i: int| steps[i].spec_frame())
}

/// The decode mode that goes with frame `i` of `len` frames: `early` for the first
/// `lead` frames, `last` for the last frame, and `middle` for those between.
pub open spec fn stamp(
    i: int,
    len: int,
    lead: int,
    early: DecodeMode,
    middle: DecodeMode,
    last: DecodeMode,
) -> DecodeMode {
    if i < lead {
        early
    } else if i + 1 == len {
        last
    } else {
        middle
    }
}

/// Whether the steps carry the frames of `plan` and the decode modes of [`stamp`].
pub open spec fn stamped(
    steps: Seq<Step>,
    plan: Seq<Seq<u8>>,
    lead: int,
    early: DecodeMode,
    middle: DecodeMode,
    last: DecodeMode,
) -> bool {
    &&& frames_of(steps) == plan
    &&& forall|i: int|
        0 <= i < steps.len() ==> (#[trigger] steps[i]).spec_mode() == stamp(
            i,
            steps.len() as int,
            lead,
            early,
            middle,
            last,
        )
}

/// Whether an operation was refused because its address names no device of the chain.
pub open spec fn refused(r: Result<Vec<Step>, DataError>) -> bool {
    r matches Err(e) && e == DataError::AddressOutOfRange
}

/// Whether an operation gave steps that carry the frames of `plan` and the decode modes
/// of [`stamp`].
pub open spec fn planned(
    r: Result<Vec<Step>, DataError>,
    plan: Seq<Seq<u8>>,
    lead: int,
    early: DecodeMode,
    middle: DecodeMode,
    last: DecodeMode,
) -> bool {
    r matches Ok(steps) && stamped(steps@, plan, lead, early, middle, last)
}

/// A bus that keeps the frames in place of transferring them. It never fails.
struct Recorder {
    frames: Vec<Vec<u8>>,
}

impl Recorder {
    /// The frames kept so far, oldest first.
    spec fn kept(&self) -> Seq<Seq<u8>> {
        Seq::new(self.frames@.len(), |i: int| self.frames@[i]@)
    }

    fn new() -> (recorder: Self)
        ensures
            recorder.written() == Seq::<(Seq<u8>, bool)>::empty(),
    {
        let recorder = Recorder { frames: Vec::new() };
        assert(recorder.written() =~= Seq::<(Seq<u8>, bool)>::empty());
        recorder
    }
}

impl SerialBus for Recorder {
    /// Every frame that was handed over is kept, and none has failed.
    closed spec fn written(&self) -> BusLog {
        Seq::new(self.frames@.len(), |i: int| (self.frames@[i]@, true))
    }

    fn write(&mut self, bytes: &[u8]) -> (r: Result<(), BusFault>) {
        self.frames.push(slice_to_vec(bytes));
        assert(self.written() =~= old(self).written().push((bytes@, true)));
        Ok(())
    }
}

/// A driver that keeps its frames in place of sending them.
type Rehearsal<const D: usize> = MAX7219<D, SpiConnector<Recorder>>;

/// The frames that went out in a rehearsal, where the rehearsal went as `outcome`: the
/// whole of `plan` with the decode modes of [`stamp`] where it went well. A rehearsal
/// cannot fail in its transport, so that the only error is a refused address.
fn settle<const D: usize>(
    driver: Rehearsal<D>,
    outcome: Result<(), DataError>,
    Ghost(plan): Ghost<Seq<Seq<u8>>>,
    lead: usize,
    early: DecodeMode,
    middle: DecodeMode,
    last: DecodeMode,
) -> (r: Result<Vec<Step>, DataError>)
    requires
        driver.consistent(Seq::<(Seq<u8>, bool)>::empty()),
        outcome is Ok ==> driver.transfers() == Seq::<Attempt<Seq<u8>>>::empty() + completed(plan),
        outcome matches Err(e) ==> e == DataError::AddressOutOfRange || broke_off(
            Seq::<Attempt<Seq<u8>>>::empty(),
            driver.transfers(),
            plan,
            e,
        ),
    ensures
        outcome is Ok ==> planned(r, plan, lead as int, early, middle, last),
        outcome matches Err(e) ==> e == DataError::AddressOutOfRange && refused(r),
{
    let ghost sent = driver.transfers();
    let recorder = driver.into_connector().into_bus();
    proof {
        assert(sent.skip(0) =~= sent);
        lemma_picked_all(sent, whole_frame());
        assert(recorder.written() =~= picked(sent, whole_frame()));
    }
    match outcome {
        Ok(()) => {
            proof {
                assert(sent =~= completed(plan));
                assert(recorder.kept().len() == recorder.written().len());
                assert forall|i: int| 0 <= i < plan.len() implies recorder.kept()[i] == plan[i] by {
                    assert(recorder.written()[i] == picked(sent, whole_frame())[i]);
                    assert(recorder.written()[i].0 == recorder.kept()[i]);
                    assert(sent[i].what == plan[i]);
                }
                assert(recorder.kept() =~= plan);
            }
            Ok(stamp_frames(recorder, lead, early, middle, last))
        },
        Err(e) => {
            proof {
                if e != DataError::AddressOutOfRange {
                    lemma_broke_off_ends_failed(
                        Seq::<Attempt<Seq<u8>>>::empty(),
                        sent,
                        plan,
                        e,
                    );
                    assert(recorder.written()[sent.len() - 1].1);
                    assert(false);
                }
            }
            Err(e)
        },
    }
}

/// Puts the decode modes of [`stamp`] to the frames that a recorder kept.
fn stamp_frames(
    recorder: Recorder,
    lead: usize,
    early: DecodeMode,
    middle: DecodeMode,
    last: DecodeMode,
) -> (steps: Vec<Step>)
    ensures
        stamped(steps@, recorder.kept(), lead as int, early, middle, last),
{
    let mut frames = recorder.frames;
    let ghost kept = recorder.kept();
    let len: usize = frames.len();
    let mut steps: Vec<Step> = Vec::new();
    let mut i: usize = len;
    // The frames are taken from the end, so the steps are built in reverse and turned
    // round afterwards.
    while i > 0
        invariant
            i <= len,
            len == kept.len(),
            frames@.len() == i,
            forall|k: int| 0 <= k < i ==> (#[trigger] frames@[k])@ == kept[k],
            steps@.len() == len - i,
            forall|k: int|
                0 <= k < steps@.len() ==> (#[trigger] steps@[k]).spec_frame() == kept[len - 1 - k]
                    && steps@[k].spec_mode() == stamp(
                    len - 1 - k,
                    len as int,
                    lead as int,
                    early,
                    middle,
                    last,
                ),
        decreases i,
    {
        i = i - 1;
        let frame = frames.pop().unwrap();
        let mode = if i < lead {
            early
        } else if i + 1 == len {
            last
        } else {
            middle
        };
        steps.push(Step { frame, mode });
    }
    let mut ordered: Vec<Step> = Vec::new();
    let mut j: usize = len;
    while j > 0
        invariant
            j <= len,
            len == kept.len(),
            steps@.len() == j,
            forall|k: int|
                0 <= k < j ==> (#[trigger] steps@[k]).spec_frame() == kept[len - 1 - k]
                    && steps@[k].spec_mode() == stamp(
                    len - 1 - k,
                    len as int,
                    lead as int,
                    early,
                    middle,
                    last,
                ),
            ordered@.len() == len - j,
            forall|k: int|
                0 <= k < ordered@.len() ==> (#[trigger] ordered@[k]).spec_frame() == kept[k]
                    && ordered@[k].spec_mode() == stamp(
                    k,
                    len as int,
                    lead as int,
                    early,
                    middle,
                    last,
                ),
        decreases j,
    {
        j = j - 1;
        let step = steps.pop().unwrap();
        ordered.push(step);
    }
    assert(frames_of(ordered@) =~= kept);
    ordered
}

/// Decides what the driver sends, and remembers the decode mode, without a transport.
///
/// `D` is the number of chained devices, held between one and eight as for the driver
/// itself. Every operation gives the steps that the driver's operation of the same name
/// takes, for the decode mode that is remembered, and leaves the sequencer as it is.
/// The caller sends the frames of the steps in order, calls [`Sequencer::sent`] for
/// each frame that went out, and gives up at the first frame that did not: that leaves
/// the sequencer with the decode mode that the chain has.
pub struct Sequencer<const D: usize> {
    decode_mode: DecodeMode,
}

impl<const D: usize> Sequencer<D> {
    /// The decode mode that was last programmed.
    pub closed spec fn spec_decode_mode(&self) -> DecodeMode {
        self.decode_mode
    }

    /// The number of devices that the steps address.
    pub open spec fn spec_devices() -> usize {
        chain_len(D) as usize
    }

    /// A sequencer for a chain that has just been powered up.
    pub fn new() -> (sequencer: Self)
        ensures
            sequencer.decode_mode() == DecodeMode::NoDecode,
    {
        Sequencer { decode_mode: DecodeMode::NoDecode }
    }

    /// The number of devices that the steps address.
    #[verifier::when_used_as_spec(spec_devices)]
    pub fn devices() -> (n: usize)
        ensures
            n == chain_len(D),
    {
        Rehearsal::<D>::devices()
    }

    /// The decode mode that was last programmed.
    #[verifier::when_used_as_spec(spec_decode_mode)]
    pub fn decode_mode(&self) -> (mode: DecodeMode)
        ensures
            mode == self.spec_decode_mode(),
    {
        self.decode_mode
    }

    /// Takes note that the frame of `step` has gone out.
    pub fn sent(&mut self, step: &Step)
        ensures
            final(self).decode_mode() == step.mode(),
    {
        self.decode_mode = step.mode();
    }

    /// A driver that keeps its frames and remembers what the sequencer remembers.
    fn rehearsal(&self) -> (driver: Rehearsal<D>)
        ensures
            driver.transfers() == Seq::<Attempt<Seq<u8>>>::empty(),
            driver.decode_mode() == self.decode_mode(),
            driver.consistent(Seq::<(Seq<u8>, bool)>::empty()),
    {
        MAX7219::resume(SpiConnector::new(Recorder::new()), self.decode_mode)
    }

    /// The steps of initialization: every device is set up in turn and then every
    /// device is powered off. [`DecodeMode::NoDecode`] is remembered from the first
    /// frame on that writes a decode-mode register, which is the third.
    pub fn init(&self) -> (steps: Vec<Step>)
        ensures
            stamped(
                steps@,
                init_plan(chain_len(D)),
                2,
                self.decode_mode(),
                DecodeMode::NoDecode,
                DecodeMode::NoDecode,
            ),
    {
        let mut driver = self.rehearsal();
        let ghost plan = init_plan(chain_len(D));
        let ghost none = Seq::<Attempt<Seq<u8>>>::empty();
        let outcome = driver.init();
        proof {
            assert(driver.consistent(Seq::<(Seq<u8>, bool)>::empty()));
            if outcome is Err && outcome->Err_0 != DataError::AddressOutOfRange {
                let k = choose|k: int|
                    broke_off_at(none, driver.transfers(), plan, k, outcome->Err_0);
                assert(broke_off_at(none, driver.transfers(), plan, k, outcome->Err_0));
            }
        }
        match settle(
            driver,
            outcome,
            Ghost(plan),
            2,
            self.decode_mode,
            DecodeMode::NoDecode,
            DecodeMode::NoDecode,
        ) {
            Ok(steps) => steps,
            Err(_) => {
                proof {
                    assert(false);
                }
                Vec::new()
            },
        }
    }

    /// The steps that write `value` to the power register of every device.
    fn power(&self, value: u8) -> (steps: Vec<Step>)
        requires
            value == 0x00 || value == 0x01,
        ensures
            stamped(
                steps@,
                power_plan(chain_len(D), value),
                0,
                self.decode_mode(),
                self.decode_mode(),
                self.decode_mode(),
            ),
    {
        let mut driver = self.rehearsal();
        let ghost plan = power_plan(chain_len(D), value);
        let ghost none = Seq::<Attempt<Seq<u8>>>::empty();
        let outcome = if value == 0x01 {
            driver.power_on()
        } else {
            driver.power_off()
        };
        proof {
            assert(driver.consistent(Seq::<(Seq<u8>, bool)>::empty()));
            if outcome is Err && outcome->Err_0 != DataError::AddressOutOfRange {
                let k = choose|k: int|
                    broke_off_at(none, driver.transfers(), plan, k, outcome->Err_0);
                assert(broke_off_at(none, driver.transfers(), plan, k, outcome->Err_0));
            }
        }
        match settle(
            driver,
            outcome,
            Ghost(plan),
            0,
            self.decode_mode,
            self.decode_mode,
            self.decode_mode,
        ) {
            Ok(steps) => steps,
            Err(_) => {
                proof {
                    assert(false);
                }
                Vec::new()
            },
        }
    }

    /// The steps that power on every device, first device first.
    pub fn power_on(&self) -> (steps: Vec<Step>)
        ensures
            stamped(
                steps@,
                power_plan(chain_len(D), 0x01),
                0,
                self.decode_mode(),
                self.decode_mode(),
                self.decode_mode(),
            ),
    {
        self.power(0x01)
    }

    /// The steps that power off every device, first device first.
    pub fn power_off(&self) -> (steps: Vec<Step>)
        ensures
            stamped(
                steps@,
                power_plan(chain_len(D), 0x00),
                0,
                self.decode_mode(),
                self.decode_mode(),
                self.decode_mode(),
            ),
    {
        self.power(0x00)
    }

    /// The steps that blank the eight digits of the device at `addr`.
    pub fn clear_display(&self, addr: usize) -> (r: Result<Vec<Step>, DataError>)
        ensures
            addr >= Self::devices() ==> refused(r),
            addr < Self::devices() ==> planned(
                r,
                clear_plan(chain_len(D), addr as nat),
                0,
                self.decode_mode(),
                self.decode_mode(),
                self.decode_mode(),
            ),
    {
        let mut driver = self.rehearsal();
        let ghost plan = clear_plan(chain_len(D), addr as nat);
        let ghost none = Seq::<Attempt<Seq<u8>>>::empty();
        let outcome = driver.clear_display(addr);
        proof {
            assert(driver.consistent(Seq::<(Seq<u8>, bool)>::empty()));
            if outcome is Err && outcome->Err_0 != DataError::AddressOutOfRange {
                let k = choose|k: int|
                    broke_off_at(none, driver.transfers(), plan, k, outcome->Err_0);
                assert(broke_off_at(none, driver.transfers(), plan, k, outcome->Err_0));
            }
        }
        settle(
            driver,
            outcome,
            Ghost(plan),
            0,
            self.decode_mode,
            self.decode_mode,
            self.decode_mode,
        )
    }

    /// The one step that writes zero to the highest digit register of every device.
    pub fn clear_all_displays(&self) -> (steps: Vec<Step>)
        ensures
            stamped(
                steps@,
                seq![broadcast_frame(chain_len(D), Command::Digit7.code(), 0x00)],
                0,
                self.decode_mode(),
                self.decode_mode(),
                self.decode_mode(),
            ),
    {
        let mut driver = self.rehearsal();
        let ghost plan = seq![broadcast_frame(chain_len(D), Command::Digit7.code(), 0x00)];
        let ghost none = Seq::<Attempt<Seq<u8>>>::empty();
        let outcome = driver.clear_all_displays();
        proof {
            assert(driver.consistent(Seq::<(Seq<u8>, bool)>::empty()));
            let sent = driver.transfers();
            if outcome is Ok {
                assert(sent =~= none + completed(plan));
            }
            if outcome is Err && outcome->Err_0 != DataError::AddressOutOfRange {
                assert(sent =~= none + completed(plan.take(0)).push(
                    failed(plan[0], outcome->Err_0),
                ));
                assert(broke_off_at(none, sent, plan, 0, outcome->Err_0));
            }
        }
        match settle(
            driver,
            outcome,
            Ghost(plan),
            0,
            self.decode_mode,
            self.decode_mode,
            self.decode_mode,
        ) {
            Ok(steps) => steps,
            Err(_) => {
                proof {
                    assert(false);
                }
                Vec::new()
            },
        }
    }

    /// The one step that writes `data` to the register with address byte `header` of
    /// the device at `addr`.
    pub fn write_raw_byte(&self, addr: usize, header: u8, data: u8) -> (r: Result<
        Vec<Step>,
        DataError,
    >)
        ensures
            addr >= Self::devices() ==> refused(r),
            addr < Self::devices() ==> planned(
                r,
                seq![addressed_frame(chain_len(D), addr as nat, header, data)],
                0,
                self.decode_mode(),
                self.decode_mode(),
                self.decode_mode(),
            ),
    {
        let mut driver = self.rehearsal();
        let ghost plan = seq![addressed_frame(chain_len(D), addr as nat, header, data)];
        let ghost none = Seq::<Attempt<Seq<u8>>>::empty();
        let outcome = driver.write_raw_byte(addr, header, data);
        proof {
            assert(driver.consistent(Seq::<(Seq<u8>, bool)>::empty()));
            let sent = driver.transfers();
            if outcome is Ok {
                assert(sent =~= none + completed(plan));
            }
            if outcome is Err && outcome->Err_0 != DataError::AddressOutOfRange {
                assert(sent =~= none + completed(plan.take(0)).push(
                    failed(plan[0], outcome->Err_0),
                ));
                assert(broke_off_at(none, sent, plan, 0, outcome->Err_0));
            }
        }
        settle(
            driver,
            outcome,
            Ghost(plan),
            0,
            self.decode_mode,
            self.decode_mode,
            self.decode_mode,
        )
    }

    /// The one step that writes `data` to register `command` of the device at `addr`.
    pub fn write_command(&self, addr: usize, command: Command, data: u8) -> (r: Result<
        Vec<Step>,
        DataError,
    >)
        ensures
            addr >= Self::devices() ==> refused(r),
            addr < Self::devices() ==> planned(
                r,
                seq![command_frame(chain_len(D), addr as nat, command, data)],
                0,
                self.decode_mode(),
                self.decode_mode(),
                self.decode_mode(),
            ),
    {
        self.write_raw_byte(addr, command.code(), data)
    }

    /// The one step that sets the brightness of the device at `addr`.
    pub fn set_intensity(&self, addr: usize, intensity: u8) -> (r: Result<Vec<Step>, DataError>)
        ensures
            addr >= Self::devices() ==> refused(r),
            addr < Self::devices() ==> planned(
                r,
                seq![command_frame(chain_len(D), addr as nat, Command::Intensity, intensity)],
                0,
                self.decode_mode(),
                self.decode_mode(),
                self.decode_mode(),
            ),
    {
        self.write_command(addr, Command::Intensity, intensity)
    }

    /// The one step that turns the test mode of the device at `addr` on or off.
    pub fn test(&self, addr: usize, is_on: bool) -> (r: Result<Vec<Step>, DataError>)
        ensures
            addr >= Self::devices() ==> refused(r),
            addr < Self::devices() ==> planned(
                r,
                seq![
                    command_frame(
                        chain_len(D),
                        addr as nat,
                        Command::DisplayTest,
                        if is_on {
                            0x01u8
                        } else {
                            0x00u8
                        },
                    ),
                ],
                0,
                self.decode_mode(),
                self.decode_mode(),
                self.decode_mode(),
            ),
    {
        let value: u8 = if is_on {
            0x01
        } else {
            0x00
        };
        self.write_command(addr, Command::DisplayTest, value)
    }

    /// The steps that program the decode mode of the device at `addr`: none where
    /// `mode` is remembered, else the one that writes the decode-mode register, after
    /// which `mode` is remembered.
    pub fn set_decode_mode(&self, addr: usize, mode: DecodeMode) -> (r: Result<
        Vec<Step>,
        DataError,
    >)
        ensures
            addr >= Self::devices() ==> refused(r),
            addr < Self::devices() ==> planned(
                r,
                mode_switch(chain_len(D), addr as nat, self.decode_mode(), mode),
                0,
                mode,
                mode,
                mode,
            ),
    {
        let mut driver = self.rehearsal();
        let ghost plan = mode_switch(chain_len(D), addr as nat, self.decode_mode(), mode);
        let ghost none = Seq::<Attempt<Seq<u8>>>::empty();
        let outcome = driver.set_decode_mode(addr, mode);
        proof {
            assert(driver.consistent(Seq::<(Seq<u8>, bool)>::empty()));
            if outcome is Err && outcome->Err_0 != DataError::AddressOutOfRange {
                let k = choose|k: int|
                    broke_off_at(none, driver.transfers(), plan, k, outcome->Err_0);
                assert(broke_off_at(none, driver.transfers(), plan, k, outcome->Err_0));
            }
        }
        settle(driver, outcome, Ghost(plan), 0, mode, mode, mode)
    }

    /// The steps that show a string of eight characters on the device at `addr`.
    /// [`DecodeMode::NoDecode`] is remembered from the first frame to the last but
    /// one, and the mode of before once the last frame has gone out.
    pub fn write_str(&self, addr: usize, string: &[u8; 8], dots: u8) -> (r: Result<
        Vec<Step>,
        DataError,
    >)
        ensures
            addr >= Self::devices() ==> refused(r),
            addr < Self::devices() ==> planned(
                r,
                string_plan(chain_len(D), addr as nat, self.decode_mode(), string@, dots),
                0,
                self.decode_mode(),
                DecodeMode::NoDecode,
                self.decode_mode(),
            ),
    {
        let mut driver = self.rehearsal();
        let ghost plan = string_plan(chain_len(D), addr as nat, self.decode_mode(), string@, dots);
        let ghost none = Seq::<Attempt<Seq<u8>>>::empty();
        let outcome = driver.write_str(addr, string, dots);
        proof {
            assert(driver.consistent(Seq::<(Seq<u8>, bool)>::empty()));
            if outcome is Err && outcome->Err_0 != DataError::AddressOutOfRange {
                let k = choose|k: int|
                    broke_off_at(none, driver.transfers(), plan, k, outcome->Err_0);
                assert(broke_off_at(none, driver.transfers(), plan, k, outcome->Err_0));
            }
        }
        settle(
            driver,
            outcome,
            Ghost(plan),
            0,
            self.decode_mode,
            DecodeMode::NoDecode,
            self.decode_mode,
        )
    }

    /// The steps that show a Code-B string of eight characters on the device at
    /// `addr`. [`DecodeMode::CodeBDigits7_0`] is remembered from the first frame to
    /// the last but one, and the mode of before once the last frame has gone out.
    pub fn write_bcd(&self, addr: usize, bcd: &[u8; 8]) -> (r: Result<Vec<Step>, DataError>)
        ensures
            addr >= Self::devices() ==> refused(r),
            addr < Self::devices() ==> planned(
                r,
                bcd_plan(chain_len(D), addr as nat, self.decode_mode(), bcd@),
                0,
                self.decode_mode(),
                DecodeMode::CodeBDigits7_0,
                self.decode_mode(),
            ),
    {
        let mut driver = self.rehearsal();
        let ghost plan = bcd_plan(chain_len(D), addr as nat, self.decode_mode(), bcd@);
        let ghost none = Seq::<Attempt<Seq<u8>>>::empty();
        let outcome = driver.write_bcd(addr, bcd);
        proof {
            assert(driver.consistent(Seq::<(Seq<u8>, bool)>::empty()));
            if outcome is Err && outcome->Err_0 != DataError::AddressOutOfRange {
                let k = choose|k: int|
                    broke_off_at(none, driver.transfers(), plan, k, outcome->Err_0);
                assert(broke_off_at(none, driver.transfers(), plan, k, outcome->Err_0));
            }
        }
        settle(
            driver,
            outcome,
            Ghost(plan),
            0,
            self.decode_mode,
            DecodeMode::CodeBDigits7_0,
            self.decode_mode,
        )
    }

    /// The steps that write eight raw segment patterns to the device at `addr`.
    /// [`DecodeMode::NoDecode`] is remembered from the first frame to the last but
    /// one, and the mode of before once the last frame has gone out.
    pub fn write_digits(&self, addr: usize, raw: &[u8; 8]) -> (r: Result<Vec<Step>, DataError>)
        ensures
            addr >= Self::devices() ==> refused(r),
            addr < Self::devices() ==> planned(
                r,
                raw_digits_plan(chain_len(D), addr as nat, self.decode_mode(), raw@),
                0,
                self.decode_mode(),
                DecodeMode::NoDecode,
                self.decode_mode(),
            ),
    {
        let mut driver = self.rehearsal();
        let ghost plan = raw_digits_plan(chain_len(D), addr as nat, self.decode_mode(), raw@);
        let ghost none = Seq::<Attempt<Seq<u8>>>::empty();
        let outcome = driver.write_digits(addr, raw);
        proof {
            assert(driver.consistent(Seq::<(Seq<u8>, bool)>::empty()));
            if outcome is Err && outcome->Err_0 != DataError::AddressOutOfRange {
                let k = choose|k: int|
                    broke_off_at(none, driver.transfers(), plan, k, outcome->Err_0);
                assert(broke_off_at(none, driver.transfers(), plan, k, outcome->Err_0));
            }
        }
        settle(
            driver,
            outcome,
            Ghost(plan),
            0,
            self.decode_mode,
            DecodeMode::NoDecode,
            self.decode_mode,
        )
    }

    /// The steps that show a signed value in decimal on the device at `addr`,
    /// right-justified, or `Err` where the value does not fit the field.
    pub fn write_integer(&self, addr: usize, value: i32) -> (r: Result<Vec<Step>, DataError>)
        ensures
            addr >= Self::devices() ==> refused(r),
            addr < Self::devices() ==> planned(
                r,
                string_plan(
                    chain_len(D),
                    addr as nat,
                    self.decode_mode(),
                    right_justified(integer_text(value as int)),
                    0x00,
                ),
                0,
                self.decode_mode(),
                DecodeMode::NoDecode,
                self.decode_mode(),
            ),
    {
        let mut driver = self.rehearsal();
        let ghost plan = string_plan(
            chain_len(D),
            addr as nat,
            self.decode_mode(),
            right_justified(integer_text(value as int)),
            0x00,
        );
        let ghost none = Seq::<Attempt<Seq<u8>>>::empty();
        let outcome = driver.write_integer(addr, value);
        proof {
            assert(driver.consistent(Seq::<(Seq<u8>, bool)>::empty()));
            if outcome is Err && outcome->Err_0 != DataError::AddressOutOfRange {
                let k = choose|k: int|
                    broke_off_at(none, driver.transfers(), plan, k, outcome->Err_0);
                assert(broke_off_at(none, driver.transfers(), plan, k, outcome->Err_0));
            }
        }
        settle(
            driver,
            outcome,
            Ghost(plan),
            0,
            self.decode_mode,
            DecodeMode::NoDecode,
            self.decode_mode,
        )
    }

    /// The steps that show an unsigned value in hexadecimal on the device at `addr`,
    /// right-justified and in lower case.
    pub fn write_hex(&self, addr: usize, value: u32) -> (r: Result<Vec<Step>, DataError>)
        ensures
            addr >= Self::devices() ==> refused(r),
            addr < Self::devices() ==> planned(
                r,
                string_plan(
                    chain_len(D),
                    addr as nat,
                    self.decode_mode(),
                    right_justified(hex_text(value as nat)),
                    0x00,
                ),
                0,
                self.decode_mode(),
                DecodeMode::NoDecode,
                self.decode_mode(),
            ),
    {
        let mut driver = self.rehearsal();
        let ghost plan = string_plan(
            chain_len(D),
            addr as nat,
            self.decode_mode(),
            right_justified(hex_text(value as nat)),
            0x00,
        );
        let ghost none = Seq::<Attempt<Seq<u8>>>::empty();
        let outcome = driver.write_hex(addr, value);
        proof {
            assert(driver.consistent(Seq::<(Seq<u8>, bool)>::empty()));
            if outcome is Err && outcome->Err_0 != DataError::AddressOutOfRange {
                let k = choose|k: int|
                    broke_off_at(none, driver.transfers(), plan, k, outcome->Err_0);
                assert(broke_off_at(none, driver.transfers(), plan, k, outcome->Err_0));
            }
        }
        settle(
            driver,
            outcome,
            Ghost(plan),
            0,
            self.decode_mode,
            DecodeMode::NoDecode,
            self.decode_mode,
        )
    }
}

/// The decode mode that is remembered once the first `sent` of `steps` have gone out,
/// where `before` was remembered before the first.
pub open spec fn remembered(before: DecodeMode, steps: Seq<Step>, sent: int) -> DecodeMode {
    if sent <= 0 {
        before
    } else {
        steps[sent - 1].spec_mode()
    }
}

/// The steps of an operation that needs decode mode `forced` leave what the driver
/// leaves: the mode of before where nothing or everything has gone out, and `forced`
/// where the frames broke off in between.
pub proof fn lemma_forced_steps_remember(
    steps: Seq<Step>,
    plan: Seq<Seq<u8>>,
    before: DecodeMode,
    forced: DecodeMode,
    sent: int,
)
    requires
        stamped(steps, plan, 0, before, forced, before),
        0 <= sent <= steps.len(),
    ensures
        remembered(before, steps, sent) == (if sent == 0 || sent == steps.len() {
            before
        } else {
            forced
        }),
{
}

/// The steps of initialization leave what the driver leaves: the mode of before until
/// the first decode-mode register is written, which is by the third frame, and
/// [`DecodeMode::NoDecode`] from then on.
pub proof fn lemma_init_steps_remember(
    steps: Seq<Step>,
    plan: Seq<Seq<u8>>,
    before: DecodeMode,
    sent: int,
)
    requires
        stamped(steps, plan, 2, before, DecodeMode::NoDecode, DecodeMode::NoDecode),
        0 <= sent <= steps.len(),
    ensures
        remembered(before, steps, sent) == (if sent <= 2 {
            before
        } else {
            DecodeMode::NoDecode
        }),
{
}

} // verus!
