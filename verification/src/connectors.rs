//! The frame connectors: three ways to shift one frame into the chain and latch it.
//!
//! A connector owns its transport and turns "send these bytes as one frame" into
//! transport operations. [`PinConnector`] toggles three output pins itself,
//! [`SpiConnector`] hands the frame to a serial bus that drives the select line on its
//! own, and [`SpiConnectorSW`] hands it to a serial bus and drives the select line
//! around the transfer.
//!
//! A transport is a [`LogicPin`] or a [`SerialBus`]. Each answers for what it was asked
//! by a record of its own, and the connectors' contracts are stated over these records:
//! what a connector says it sent is what its pins and its bus were asked for.

use vstd::prelude::*;
use crate::registers::DataError;
use crate::trace::{
    accounts_for, attempt, broke_off, broke_off_at, completed, grew_by,
    lemma_accounts_for_next_transfer, lemma_all_completed, lemma_grew_by_chain,
    lemma_grew_by_next, lemma_grew_by_nothing, lemma_log_begins_as_before, lemma_next_attempt,
    Attempt, Record,
};

verus! {

/// Marks the failure of a pin operation. The cause stays with the transport.
#[derive(Clone, Copy, Debug, PartialEq, Eq)]
pub struct PinFault;

/// Marks the failure of a bus transfer. The cause stays with the transport.
#[derive(Clone, Copy, Debug, PartialEq, Eq)]
pub struct BusFault;

/// The levels that a pin was asked for, oldest first: `true` for high, each with
/// whether the pin took the level.
pub type PinLog = Record<bool>;

/// The transfers that a bus was asked for, oldest first, each with whether the
/// transfer completed.
pub type BusLog = Record<Seq<u8>>;

/// A logic output that can be driven high or low.
///
/// An output answers for what it was asked: every request is on its record, in the
/// order in which it came, and nothing else is.
pub trait LogicPin {
    /// Every level that this output was asked for.
    spec fn driven(&self) -> PinLog;

    /// Drives the output high.
    fn set_high(&mut self) -> (r: Result<(), PinFault>)
        ensures
            final(self).driven() == old(self).driven().push((true, r is Ok)),
    ;

    /// Drives the output low.
    fn set_low(&mut self) -> (r: Result<(), PinFault>)
        ensures
            final(self).driven() == old(self).driven().push((false, r is Ok)),
    ;
}

/// A clocked serial bus that transfers bytes most significant bit first.
///
/// A bus answers for what it was asked: every transfer is on its record, in the order
/// in which it came, and nothing else is.
pub trait SerialBus {
    /// Every transfer that this bus was asked for.
    spec fn written(&self) -> BusLog;

    /// Transfers `bytes` in order.
    fn write(&mut self, bytes: &[u8]) -> (r: Result<(), BusFault>)
        ensures
            final(self).written() == old(self).written().push((bytes@, r is Ok)),
    ;
}

/// The way a driver reaches its chain of devices.
pub trait Connector {
    /// Every frame that was handed to this connector, oldest first, each with the
    /// error that its transfer ended with, if any.
    spec fn transfers(&self) -> Seq<Attempt<Seq<u8>>>;

    /// The records that the transport of such a connector had when the connector was
    /// made.
    type Found;

    /// Whether the connector's records agree with each other and with its transport:
    /// the transport had the records `found` when the connector was made, and has been
    /// asked since then for exactly what the frames on record take, in their order.
    spec fn consistent(&self, found: Self::Found) -> bool;

    /// Whether a connector of this kind can report `fault`.
    spec fn reports(fault: DataError) -> bool;

    /// Shifts `bytes` into the chain as one frame and latches it.
    ///
    /// Gives up at the first transport operation that fails, and reports the kind of
    /// that operation.
    fn write_raw_bytes(&mut self, bytes: &[u8]) -> (r: Result<(), DataError>)
        ensures
            final(self).transfers() == old(self).transfers().push(attempt(bytes@, r)),
            r matches Err(e) ==> e.is_transport() && Self::reports(e),
            forall|found: Self::Found|
                old(self).consistent(found) ==> #[trigger] final(self).consistent(found),
    ;
}

/// The three lines between the controller and the first device of the chain.
#[derive(Clone, Copy, Debug, PartialEq, Eq, Structural)]
pub enum Line {
    /// Serial data, sampled by the chain on the rising edge of the clock.
    Data,
    /// Serial clock.
    Clock,
    /// Chip select, also called load: low while a frame is shifted in; its rising edge
    /// makes every device take its slot of the frame.
    Select,
}

/// One level change on one line.
#[derive(Clone, Copy, Debug, PartialEq, Eq, Structural)]
pub struct Signal {
    pub line: Line,
    pub high: bool,
}

/// Whether bit `k` of `byte` is set, bit 0 being the least significant.
pub open spec fn bit_of(byte: u8, k: u8) -> bool {
    byte & (1u8 << k) != 0
}

/// The signals that clock bit `k` of `byte` into the chain: the data line takes the
/// bit's value, then the clock goes high and low again.
pub open spec fn bit_signals(byte: u8, k: u8) -> Seq<Signal> {
    seq![
        Signal { line: Line::Data, high: bit_of(byte, k) },
        Signal { line: Line::Clock, high: true },
        Signal { line: Line::Clock, high: false },
    ]
}

/// The signals that clock one byte into the chain, most significant bit first.
pub open spec fn byte_signals(byte: u8) -> Seq<Signal> {
    bit_signals(byte, 7) + bit_signals(byte, 6) + bit_signals(byte, 5) + bit_signals(byte, 4)
        + bit_signals(byte, 3) + bit_signals(byte, 2) + bit_signals(byte, 1) + bit_signals(
        byte,
        0,
    )
}

/// The signals that clock `bytes` into the chain, first byte first.
pub open spec fn bytes_signals(bytes: Seq<u8>) -> Seq<Signal>
    decreases bytes.len(),
{
    if bytes.len() == 0 {
        Seq::empty()
    } else {
        bytes_signals(bytes.drop_last()) + byte_signals(bytes.last())
    }
}

/// The signals of one whole frame: select goes low, the bytes are clocked in, and
/// select goes high, which latches the frame.
pub open spec fn frame_signals(bytes: Seq<u8>) -> Seq<Signal> {
    seq![Signal { line: Line::Select, high: false }] + bytes_signals(bytes) + seq![
        Signal { line: Line::Select, high: true },
    ]
}

/// Selects the signals on `line`, each as the level that it asks for.
pub open spec fn on_line(line: Line) -> spec_fn(Signal) -> Option<bool> {
    |signal: Signal|
        if signal.line == line {
            Some(signal.high)
        } else {
            None
        }
}

/// [`frame_signals`] as a function value.
pub open spec fn pin_plan() -> spec_fn(Seq<u8>) -> Seq<Signal> {
    |bytes: Seq<u8>| frame_signals(bytes)
}

/// Where the three signals of each bit stand among the signals of its byte.
pub proof fn lemma_byte_signals(byte: u8, j: int)
    requires
        0 <= j < 8,
    ensures
        byte_signals(byte).len() == 24,
        byte_signals(byte)[3 * j] == (Signal {
            line: Line::Data,
            high: bit_of(byte, (7 - j) as u8),
        }),
        byte_signals(byte)[3 * j + 1] == (Signal { line: Line::Clock, high: true }),
        byte_signals(byte)[3 * j + 2] == (Signal { line: Line::Clock, high: false }),
{
}

/// The signals of a sequence of bytes are the signals of its bytes, one byte after the
/// other, twenty-four signals each.
pub proof fn lemma_bytes_signals(bytes: Seq<u8>)
    ensures
        bytes_signals(bytes).len() == 24 * bytes.len(),
        forall|i: int, q: int|
            0 <= i < bytes.len() && 0 <= q < 24 ==> #[trigger] bytes_signals(bytes)[24 * i + q]
                == byte_signals(bytes[i])[q],
    decreases bytes.len(),
{
    if bytes.len() > 0 {
        let front = bytes.drop_last();
        lemma_bytes_signals(front);
        lemma_byte_signals(bytes.last(), 0);
        let signals = bytes_signals(bytes);
        assert forall|i: int, q: int|
            0 <= i < bytes.len() && 0 <= q < 24 implies #[trigger] signals[24 * i + q]
            == byte_signals(bytes[i])[q] by {
            if i < front.len() {
                assert(bytes_signals(front)[24 * i + q] == byte_signals(front[i])[q]);
            }
        }
    }
}

/// The shape of a frame on the three lines.
///
/// A frame of `n` bytes takes `24 * n + 2` signals. The first drives select low and the
/// last drives it high. Between them, bit `j` of byte `i`, counted from the most
/// significant bit, is put on the data line and clocked in by a high and a low on the
/// clock line.
pub proof fn lemma_frame_signals(bytes: Seq<u8>)
    ensures
        frame_signals(bytes).len() == 24 * bytes.len() + 2,
        frame_signals(bytes)[0] == (Signal { line: Line::Select, high: false }),
        frame_signals(bytes)[24 * (bytes.len() as int) + 1] == (Signal {
            line: Line::Select,
            high: true,
        }),
        forall|i: int, j: int|
            #![trigger frame_signals(bytes)[1 + 24 * i + 3 * j]]
            0 <= i < bytes.len() && 0 <= j < 8 ==> frame_signals(bytes)[1 + 24 * i + 3 * j] == (
            Signal { line: Line::Data, high: bit_of(bytes[i], (7 - j) as u8) })
                && frame_signals(bytes)[1 + 24 * i + 3 * j + 1] == (Signal {
                line: Line::Clock,
                high: true,
            }) && frame_signals(bytes)[1 + 24 * i + 3 * j + 2] == (Signal {
                line: Line::Clock,
                high: false,
            }),
{
    lemma_bytes_signals(bytes);
    assert forall|i: int, j: int|
        #![trigger frame_signals(bytes)[1 + 24 * i + 3 * j]]
        0 <= i < bytes.len() && 0 <= j < 8 implies {
        &&& frame_signals(bytes)[1 + 24 * i + 3 * j] == (Signal {
            line: Line::Data,
            high: bit_of(bytes[i], (7 - j) as u8),
        })
        &&& frame_signals(bytes)[1 + 24 * i + 3 * j + 1] == (Signal {
            line: Line::Clock,
            high: true,
        })
        &&& frame_signals(bytes)[1 + 24 * i + 3 * j + 2] == (Signal {
            line: Line::Clock,
            high: false,
        })
    } by {
        lemma_byte_signals(bytes[i], j);
        assert(bytes_signals(bytes)[24 * i + 3 * j] == byte_signals(bytes[i])[3 * j]);
        assert(bytes_signals(bytes)[24 * i + (3 * j + 1)] == byte_signals(bytes[i])[3 * j + 1]);
        assert(bytes_signals(bytes)[24 * i + (3 * j + 2)] == byte_signals(bytes[i])[3 * j + 2]);
    }
}

/// The records of the three pins of a [`PinConnector`].
pub struct PinLogs {
    pub data: PinLog,
    pub clock: PinLog,
    pub select: PinLog,
}

impl PinLogs {
    /// The record of the pin that drives `line`.
    pub open spec fn on(self, line: Line) -> PinLog {
        match line {
            Line::Data => self.data,
            Line::Clock => self.clock,
            Line::Select => self.select,
        }
    }
}

/// Connects to the chain through three output pins that the connector toggles itself.
pub struct PinConnector<DATA, CS, SCK> {
    data: DATA,
    cs: CS,
    sck: SCK,
    signals: Ghost<Seq<Attempt<Signal>>>,
    transfers: Ghost<Seq<Attempt<Seq<u8>>>>,
}

impl<DATA: LogicPin, CS: LogicPin, SCK: LogicPin> PinConnector<DATA, CS, SCK> {
    /// Every level change that this connector asked of its pins, oldest first, each
    /// with the error that the pin answered with, if any.
    pub closed spec fn signals(&self) -> Seq<Attempt<Signal>> {
        self.signals@
    }

    /// The record of the pin that drives `line`.
    pub closed spec fn pin_log(&self, line: Line) -> PinLog {
        match line {
            Line::Data => self.data.driven(),
            Line::Clock => self.sck.driven(),
            Line::Select => self.cs.driven(),
        }
    }

    /// Since the connector was as `earlier`, each pin was asked for exactly the signals
    /// on its line that the connector has put on record since then, in their order.
    pub open spec fn wired_since(&self, earlier: Self) -> bool {
        forall|line: Line|
            grew_by(
                earlier.pin_log(line),
                #[trigger] self.pin_log(line),
                self.signals(),
                earlier.signals().len() as int,
                on_line(line),
            )
    }

    /// A connector over the data, select and clock pins, with nothing sent yet.
    pub fn new(data: DATA, cs: CS, sck: SCK) -> (connector: Self)
        ensures
            connector.signals() == Seq::<Attempt<Signal>>::empty(),
            connector.transfers() == Seq::<Attempt<Seq<u8>>>::empty(),
            connector.consistent(
                (PinLogs { data: data.driven(), clock: sck.driven(), select: cs.driven() }),
            ),
    {
        let connector = PinConnector {
            data,
            cs,
            sck,
            signals: Ghost(Seq::empty()),
            transfers: Ghost(Seq::empty()),
        };
        proof {
            assert forall|line: Line|
                grew_by(
                    connector.pin_log(line),
                    #[trigger] connector.pin_log(line),
                    connector.signals(),
                    0,
                    on_line(line),
                ) by {
                lemma_grew_by_nothing(connector.pin_log(line), connector.signals(), on_line(line));
            }
        }
        connector
    }

    /// Asks one pin for one level and records the attempt.
    fn drive(&mut self, line: Line, high: bool) -> (r: Result<(), DataError>)
        ensures
            final(self).signals() == old(self).signals().push(attempt(Signal { line, high }, r)),
            final(self).pin_log(line) == old(self).pin_log(line).push((high, r is Ok)),
            forall|other: Line|
                other != line ==> #[trigger] final(self).pin_log(other) == old(self).pin_log(
                    other,
                ),
            final(self).transfers() == old(self).transfers(),
            r is Err ==> r == Err::<(), DataError>(DataError::Pin),
    {
        let outcome = match line {
            Line::Data => if high {
                self.data.set_high()
            } else {
                self.data.set_low()
            },
            Line::Clock => if high {
                self.sck.set_high()
            } else {
                self.sck.set_low()
            },
            Line::Select => if high {
                self.cs.set_high()
            } else {
                self.cs.set_low()
            },
        };
        let r = match outcome {
            Ok(()) => Ok(()),
            Err(_) => Err(DataError::Pin),
        };
        self.signals = Ghost(self.signals@.push(attempt(Signal { line, high }, r)));
        r
    }

    /// Takes the next signal of a plan of which the first `pos` signals are done.
    fn advance(
        &mut self,
        line: Line,
        high: bool,
        Ghost(start): Ghost<Self>,
        Ghost(plan): Ghost<Seq<Signal>>,
        Ghost(pos): Ghost<int>,
    ) -> (r: Result<(), DataError>)
        requires
            0 <= pos < plan.len(),
            plan[pos] == (Signal { line, high }),
            old(self).signals() == start.signals() + completed(plan.take(pos)),
            old(self).wired_since(start),
        ensures
            final(self).wired_since(start),
            r is Ok ==> final(self).signals() == start.signals() + completed(plan.take(pos + 1)),
            r is Err ==> r == Err::<(), DataError>(DataError::Pin) && broke_off(
                start.signals(),
                final(self).signals(),
                plan,
                DataError::Pin,
            ),
            final(self).transfers() == old(self).transfers(),
    {
        let r = self.drive(line, high);
        proof {
            lemma_next_attempt(start.signals(), old(self).signals(), plan, pos, r);
            let next = attempt(Signal { line, high }, r);
            assert forall|any: Line|
                grew_by(
                    start.pin_log(any),
                    #[trigger] self.pin_log(any),
                    self.signals(),
                    start.signals().len() as int,
                    on_line(any),
                ) by {
                lemma_grew_by_next(
                    start.pin_log(any),
                    old(self).pin_log(any),
                    self.pin_log(any),
                    old(self).signals(),
                    start.signals().len() as int,
                    on_line(any),
                    next,
                );
            }
        }
        r
    }

    /// Shifts one frame out on the pins: the signals of [`signals_of`], one after the
    /// other.
    fn shift_out(&mut self, bytes: &[u8]) -> (r: Result<(), DataError>)
        ensures
            r is Ok ==> final(self).signals() == old(self).signals() + completed(
                frame_signals(bytes@),
            ),
            r is Err ==> r == Err::<(), DataError>(DataError::Pin) && broke_off(
                old(self).signals(),
                final(self).signals(),
                frame_signals(bytes@),
                DataError::Pin,
            ),
            final(self).transfers() == old(self).transfers(),
            final(self).wired_since(*old(self)),
    {
        let ghost start = *self;
        let ghost before = self.signals();
        let plan = signals_of(bytes);
        proof {
            assert(before =~= before + completed(plan@.take(0)));
            assert forall|any: Line|
                grew_by(
                    start.pin_log(any),
                    #[trigger] self.pin_log(any),
                    self.signals(),
                    start.signals().len() as int,
                    on_line(any),
                ) by {
                lemma_grew_by_nothing(self.pin_log(any), self.signals(), on_line(any));
            }
        }
        let mut i: usize = 0;
        while i < plan.len()
            invariant
                i <= plan.len(),
                plan@ == frame_signals(bytes@),
                before == old(self).signals(),
                start == *old(self),
                self.wired_since(start),
                self.signals() == before + completed(plan@.take(i as int)),
                self.transfers() == old(self).transfers(),
            decreases plan.len() - i,
        {
            let signal = plan[i];
            self.advance(signal.line, signal.high, Ghost(start), Ghost(plan@), Ghost(i as int))?;
            i = i + 1;
        }
        proof {
            lemma_all_completed(before, self.signals(), plan@);
        }
        Ok(())
    }
}

/// The signals of one whole frame, in the order in which they go out: select low, for
/// every byte and every bit of it, most significant bit first, the bit on the data line
/// and a pulse on the clock line, and select high.
pub fn signals_of(bytes: &[u8]) -> (signals: Vec<Signal>)
    ensures
        signals@ == frame_signals(bytes@),
{
    let ghost plan = frame_signals(bytes@);
    proof {
        lemma_frame_signals(bytes@);
    }
    let mut signals: Vec<Signal> = Vec::new();
    signals.push(Signal { line: Line::Select, high: false });
    assert(signals@ =~= plan.take(1));
    let mut i: usize = 0;
    while i < bytes.len()
        invariant
            i <= bytes.len(),
            plan == frame_signals(bytes@),
            plan.len() == 24 * bytes@.len() + 2,
            signals@ == plan.take(1 + 24 * i),
        decreases bytes.len() - i,
    {
        let byte: u8 = bytes[i];
        let mut j: u8 = 0;
        while j < 8
            invariant
                i < bytes.len(),
                j <= 8,
                byte == bytes@[i as int],
                plan == frame_signals(bytes@),
                plan.len() == 24 * bytes@.len() + 2,
                signals@ == plan.take(1 + 24 * i + 3 * j),
            decreases 8 - j,
        {
            let ghost pos = 1 + 24 * (i as int) + 3 * (j as int);
            proof {
                lemma_frame_signals(bytes@);
                assert(plan[1 + 24 * (i as int) + 3 * (j as int)] == (Signal {
                    line: Line::Data,
                    high: bit_of(byte, (7 - j) as u8),
                }));
            }
            let high = byte & (1u8 << (7 - j)) != 0;
            signals.push(Signal { line: Line::Data, high });
            signals.push(Signal { line: Line::Clock, high: true });
            signals.push(Signal { line: Line::Clock, high: false });
            assert(signals@ =~= plan.take(pos + 3));
            j = j + 1;
        }
        i = i + 1;
    }
    signals.push(Signal { line: Line::Select, high: true });
    assert(signals@ =~= plan);
    signals
}

impl<DATA: LogicPin, CS: LogicPin, SCK: LogicPin> Connector for PinConnector<DATA, CS, SCK> {
    closed spec fn transfers(&self) -> Seq<Attempt<Seq<u8>>> {
        self.transfers@
    }

    type Found = PinLogs;

    /// The signals on record are those of the frames on record, frame by frame, and
    /// each pin has been asked for exactly the signals on its line.
    open spec fn consistent(&self, found: PinLogs) -> bool {
        &&& accounts_for(self.signals(), self.transfers(), pin_plan())
        &&& forall|line: Line|
            grew_by(found.on(line), #[trigger] self.pin_log(line), self.signals(), 0, on_line(line))
    }

    /// Only a pin can fail here.
    open spec fn reports(fault: DataError) -> bool {
        fault == DataError::Pin
    }

    /// Shifts the frame out bit by bit. A frame that completed has put exactly
    /// [`frame_signals`] on the pins; one that failed has put a part of them there that
    /// ends at the signal that failed. Each pin was asked for the signals on its line,
    /// and for nothing else.
    fn write_raw_bytes(&mut self, bytes: &[u8]) -> (r: Result<(), DataError>)
        ensures
            final(self).wired_since(*old(self)),
            r is Ok ==> final(self).signals() == old(self).signals() + completed(
                frame_signals(bytes@),
            ),
            r is Err ==> r == Err::<(), DataError>(DataError::Pin) && broke_off(
                old(self).signals(),
                final(self).signals(),
                frame_signals(bytes@),
                DataError::Pin,
            ),
    {
        let r = self.shift_out(bytes);
        let ghost shifted = *self;
        self.transfers = Ghost(self.transfers@.push(attempt(bytes@, r)));
        proof {
            assert forall|line: Line| #[trigger] self.pin_log(line) == shifted.pin_log(line) by {}
            assert(self.signals() == shifted.signals());
            assert forall|found: PinLogs|
                old(self).consistent(found) implies #[trigger] self.consistent(found) by {
                lemma_accounts_for_next_transfer(
                    old(self).signals(),
                    self.signals(),
                    old(self).transfers(),
                    pin_plan(),
                    bytes@,
                    r,
                );
                lemma_log_begins_as_before(
                    old(self).signals(),
                    self.signals(),
                    frame_signals(bytes@),
                    r,
                );
                assert forall|line: Line|
                    grew_by(
                        found.on(line),
                        #[trigger] self.pin_log(line),
                        self.signals(),
                        0,
                        on_line(line),
                    ) by {
                    assert(self.pin_log(line) == shifted.pin_log(line));
                    assert(grew_by(
                        old(self).pin_log(line),
                        shifted.pin_log(line),
                        shifted.signals(),
                        old(self).signals().len() as int,
                        on_line(line),
                    ));
                    lemma_grew_by_chain(
                        found.on(line),
                        old(self).pin_log(line),
                        self.pin_log(line),
                        old(self).signals(),
                        self.signals(),
                        on_line(line),
                    );
                }
            }
        }
        r
    }
}

/// Selects every frame, as its bytes.
pub open spec fn whole_frame() -> spec_fn(Seq<u8>) -> Option<Seq<u8>> {
    |frame: Seq<u8>| Some(frame)
}

/// Connects to the chain through a serial bus that drives the select line on its own.
pub struct SpiConnector<SPI> {
    spi: SPI,
    transfers: Ghost<Seq<Attempt<Seq<u8>>>>,
}

impl<SPI: SerialBus> SpiConnector<SPI> {
    /// The record of the bus.
    pub closed spec fn bus_log(&self) -> BusLog {
        self.spi.written()
    }

    /// Gives the bus back.
    pub fn into_bus(self) -> (bus: SPI)
        ensures
            bus.written() == self.bus_log(),
    {
        self.spi
    }

    /// A connector over the bus, with nothing sent yet.
    pub fn new(spi: SPI) -> (connector: Self)
        ensures
            connector.transfers() == Seq::<Attempt<Seq<u8>>>::empty(),
            connector.bus_log() == spi.written(),
            connector.consistent(spi.written()),
    {
        let connector = SpiConnector { spi, transfers: Ghost(Seq::empty()) };
        proof {
            lemma_grew_by_nothing(connector.bus_log(), connector.transfers(), whole_frame());
        }
        connector
    }
}

impl<SPI: SerialBus> Connector for SpiConnector<SPI> {
    closed spec fn transfers(&self) -> Seq<Attempt<Seq<u8>>> {
        self.transfers@
    }

    type Found = BusLog;

    /// The bus has been asked for exactly the frames on record.
    open spec fn consistent(&self, found: BusLog) -> bool {
        grew_by(found, self.bus_log(), self.transfers(), 0, whole_frame())
    }

    /// Only the bus can fail here.
    open spec fn reports(fault: DataError) -> bool {
        fault == DataError::Spi
    }

    /// Hands the frame to the bus as one transfer, and nothing else. A failure is a bus
    /// failure.
    fn write_raw_bytes(&mut self, bytes: &[u8]) -> (r: Result<(), DataError>)
        ensures
            final(self).bus_log() == old(self).bus_log().push((bytes@, r is Ok)),
            r is Err ==> r == Err::<(), DataError>(DataError::Spi),
    {
        let r = match self.spi.write(bytes) {
            Ok(()) => Ok(()),
            Err(_) => Err(DataError::Spi),
        };
        self.transfers = Ghost(self.transfers@.push(attempt(bytes@, r)));
        proof {
            assert forall|found: BusLog|
                old(self).consistent(found) implies #[trigger] self.consistent(found) by {
                lemma_grew_by_next(
                    found,
                    old(self).bus_log(),
                    self.bus_log(),
                    old(self).transfers(),
                    0,
                    whole_frame(),
                    attempt(bytes@, r),
                );
            }
        }
        r
    }
}

/// One step of a transfer whose select line the connector drives itself.
pub enum BusStep {
    /// The select line is driven low.
    Select,
    /// The bytes are handed to the bus.
    Transfer(Seq<u8>),
    /// The select line is driven high, which latches the frame.
    Release,
}

/// The steps of one frame: select, transfer the bytes, release.
pub open spec fn bracketed_transfer(bytes: Seq<u8>) -> Seq<BusStep> {
    seq![BusStep::Select, BusStep::Transfer(bytes), BusStep::Release]
}

/// Selects the steps that drive the select line, each as the level that it asks for:
/// low to select, high to release.
pub open spec fn select_level() -> spec_fn(BusStep) -> Option<bool> {
    |step: BusStep|
        match step {
            BusStep::Select => Some(false),
            BusStep::Transfer(_) => None,
            BusStep::Release => Some(true),
        }
}

/// Selects the steps that use the bus, each as the bytes that it hands over.
pub open spec fn bus_frame() -> spec_fn(BusStep) -> Option<Seq<u8>> {
    |step: BusStep|
        match step {
            BusStep::Select => None,
            BusStep::Transfer(bytes) => Some(bytes),
            BusStep::Release => None,
        }
}

/// [`bracketed_transfer`] as a function value.
pub open spec fn bracket_plan() -> spec_fn(Seq<u8>) -> Seq<BusStep> {
    |bytes: Seq<u8>| bracketed_transfer(bytes)
}

/// The error that a failure of step `k` of a bracketed transfer is reported as: a bus
/// failure for the transfer, a pin failure for the select line.
pub open spec fn step_fault(k: int) -> DataError {
    if k == 1 {
        DataError::Spi
    } else {
        DataError::Pin
    }
}

/// What to do at one step of a bracketed transfer, for a caller that takes the steps
/// itself because it has to wait on its bus.
#[derive(Clone, Copy, Debug, PartialEq, Eq, Structural)]
pub enum BracketAction {
    /// Drive the select line low.
    Select,
    /// Hand the frame to the bus.
    Transfer,
    /// Drive the select line high.
    Release,
}

impl BracketAction {
    /// The step that the action takes for a frame of `bytes`.
    pub open spec fn step(self, bytes: Seq<u8>) -> BusStep {
        match self {
            BracketAction::Select => BusStep::Select,
            BracketAction::Transfer => BusStep::Transfer(bytes),
            BracketAction::Release => BusStep::Release,
        }
    }

    /// The error that a failure of the action is reported as.
    pub open spec fn spec_fault(self) -> DataError {
        match self {
            BracketAction::Select => DataError::Pin,
            BracketAction::Transfer => DataError::Spi,
            BracketAction::Release => DataError::Pin,
        }
    }

    /// The error that a failure of the action is reported as: a bus failure for the
    /// transfer, a pin failure for the select line.
    #[verifier::when_used_as_spec(spec_fault)]
    pub fn fault(self) -> (fault: DataError)
        ensures
            fault == self.spec_fault(),
    {
        match self {
            BracketAction::Select => DataError::Pin,
            BracketAction::Transfer => DataError::Spi,
            BracketAction::Release => DataError::Pin,
        }
    }
}

/// The actions of one bracketed transfer, in the order in which they are taken. The
/// caller gives up at the first action that fails, with the error of that action.
pub fn bracket_actions() -> (actions: [BracketAction; 3])
    ensures
        forall|bytes: Seq<u8>|
            #![trigger bracketed_transfer(bytes)]
            Seq::new(3, |k: int| actions@[k].step(bytes)) == bracketed_transfer(bytes),
        forall|k: int| 0 <= k < 3 ==> (#[trigger] actions@[k]).spec_fault() == step_fault(k),
{
    let actions = [BracketAction::Select, BracketAction::Transfer, BracketAction::Release];
    assert forall|bytes: Seq<u8>| #![trigger bracketed_transfer(bytes)]
        Seq::new(3, |k: int| actions@[k].step(bytes)) == bracketed_transfer(bytes) by {
        assert(Seq::new(3, |k: int| actions@[k].step(bytes)) =~= bracketed_transfer(bytes));
    }
    actions
}

/// The records of the select pin and the bus of a [`SpiConnectorSW`].
pub struct BracketLogs {
    pub select: PinLog,
    pub bus: BusLog,
}

/// Connects to the chain through a serial bus and a select pin that the connector
/// drives around each transfer.
pub struct SpiConnectorSW<SPI, CS> {
    spi_c: SpiConnector<SPI>,
    cs: CS,
    steps: Ghost<Seq<Attempt<BusStep>>>,
    transfers: Ghost<Seq<Attempt<Seq<u8>>>>,
}

impl<SPI: SerialBus, CS: LogicPin> SpiConnectorSW<SPI, CS> {
    /// Every step that this connector took, oldest first, each with the error that it
    /// ended with, if any.
    pub closed spec fn steps(&self) -> Seq<Attempt<BusStep>> {
        self.steps@
    }

    /// The record of the select pin.
    pub closed spec fn select_log(&self) -> PinLog {
        self.cs.driven()
    }

    /// The record of the bus.
    pub closed spec fn bus_log(&self) -> BusLog {
        self.spi_c.bus_log()
    }

    /// Since the connector was as `earlier`, the select pin and the bus were asked for
    /// exactly the steps that the connector has put on record since then, in their
    /// order.
    pub open spec fn wired_since(&self, earlier: Self) -> bool {
        &&& grew_by(
            earlier.select_log(),
            self.select_log(),
            self.steps(),
            earlier.steps().len() as int,
            select_level(),
        )
        &&& grew_by(
            earlier.bus_log(),
            self.bus_log(),
            self.steps(),
            earlier.steps().len() as int,
            bus_frame(),
        )
    }

    /// A connector over the bus and the select pin, with nothing sent yet.
    pub fn new(spi: SPI, cs: CS) -> (connector: Self)
        ensures
            connector.steps() == Seq::<Attempt<BusStep>>::empty(),
            connector.transfers() == Seq::<Attempt<Seq<u8>>>::empty(),
            connector.consistent((BracketLogs { select: cs.driven(), bus: spi.written() })),
    {
        let connector = SpiConnectorSW {
            spi_c: SpiConnector::new(spi),
            cs,
            steps: Ghost(Seq::empty()),
            transfers: Ghost(Seq::empty()),
        };
        proof {
            lemma_grew_by_nothing(connector.select_log(), connector.steps(), select_level());
            lemma_grew_by_nothing(connector.bus_log(), connector.steps(), bus_frame());
        }
        connector
    }

    /// Puts one step on record together with its outcome.
    fn note(&mut self, Ghost(step): Ghost<BusStep>, outcome: &Result<(), DataError>)
        ensures
            final(self).steps() == old(self).steps().push(attempt(step, *outcome)),
            final(self).select_log() == old(self).select_log(),
            final(self).bus_log() == old(self).bus_log(),
            final(self).transfers() == old(self).transfers(),
    {
        self.steps = Ghost(self.steps@.push(attempt(step, *outcome)));
    }

    /// Selects the chain, transfers the frame over the bus and releases the chain.
    fn bracket(&mut self, bytes: &[u8]) -> (r: Result<(), DataError>)
        ensures
            final(self).wired_since(*old(self)),
            r is Ok ==> final(self).steps() == old(self).steps() + completed(
                bracketed_transfer(bytes@),
            ),
            r matches Err(e) ==> exists|k: int|
                #[trigger] broke_off_at(
                    old(self).steps(),
                    final(self).steps(),
                    bracketed_transfer(bytes@),
                    k,
                    e,
                ) && e == step_fault(k),
            final(self).transfers() == old(self).transfers(),
    {
        let ghost start = *self;
        let ghost before = self.steps();
        let ghost since = before.len() as int;
        let ghost plan = bracketed_transfer(bytes@);
        proof {
            assert(before =~= before + completed(plan.take(0)));
            assert(plan[0] == BusStep::Select);
            assert(plan[1] == BusStep::Transfer(bytes@));
            assert(plan[2] == BusStep::Release);
            lemma_grew_by_nothing(self.select_log(), before, select_level());
            lemma_grew_by_nothing(self.bus_log(), before, bus_frame());
        }
        let selected = match self.cs.set_low() {
            Ok(()) => Ok(()),
            Err(_) => Err(DataError::Pin),
        };
        self.note(Ghost(BusStep::Select), &selected);
        proof {
            let next = attempt(BusStep::Select, selected);
            lemma_next_attempt(before, before, plan, 0, selected);
            lemma_grew_by_next(
                start.select_log(),
                start.select_log(),
                self.select_log(),
                before,
                since,
                select_level(),
                next,
            );
            lemma_grew_by_next(
                start.bus_log(),
                start.bus_log(),
                self.bus_log(),
                before,
                since,
                bus_frame(),
                next,
            );
            if let Err(e) = selected {
                assert(broke_off_at(before, self.steps(), plan, 0, e));
            }
        }
        selected?;
        let ghost selected_state = *self;
        let sent = match self.spi_c.write_raw_bytes(bytes) {
            Ok(()) => Ok(()),
            Err(_) => Err(DataError::Spi),
        };
        self.note(Ghost(BusStep::Transfer(bytes@)), &sent);
        proof {
            let next = attempt(BusStep::Transfer(bytes@), sent);
            lemma_next_attempt(before, selected_state.steps(), plan, 1, sent);
            lemma_grew_by_next(
                start.select_log(),
                selected_state.select_log(),
                self.select_log(),
                selected_state.steps(),
                since,
                select_level(),
                next,
            );
            lemma_grew_by_next(
                start.bus_log(),
                selected_state.bus_log(),
                self.bus_log(),
                selected_state.steps(),
                since,
                bus_frame(),
                next,
            );
            if let Err(e) = sent {
                assert(broke_off_at(before, self.steps(), plan, 1, e));
            }
        }
        sent?;
        let ghost sent_state = *self;
        let released = match self.cs.set_high() {
            Ok(()) => Ok(()),
            Err(_) => Err(DataError::Pin),
        };
        self.note(Ghost(BusStep::Release), &released);
        proof {
            let next = attempt(BusStep::Release, released);
            lemma_next_attempt(before, sent_state.steps(), plan, 2, released);
            lemma_grew_by_next(
                start.select_log(),
                sent_state.select_log(),
                self.select_log(),
                sent_state.steps(),
                since,
                select_level(),
                next,
            );
            lemma_grew_by_next(
                start.bus_log(),
                sent_state.bus_log(),
                self.bus_log(),
                sent_state.steps(),
                since,
                bus_frame(),
                next,
            );
            if let Err(e) = released {
                assert(broke_off_at(before, self.steps(), plan, 2, e));
            }
        }
        released?;
        proof {
            lemma_all_completed(before, self.steps(), plan);
        }
        Ok(())
    }
}

impl<SPI: SerialBus, CS: LogicPin> Connector for SpiConnectorSW<SPI, CS> {
    closed spec fn transfers(&self) -> Seq<Attempt<Seq<u8>>> {
        self.transfers@
    }

    type Found = BracketLogs;

    /// The steps on record are those of the frames on record, frame by frame, and
    /// the select pin and the bus have been asked for exactly these steps.
    open spec fn consistent(&self, found: BracketLogs) -> bool {
        &&& accounts_for(self.steps(), self.transfers(), bracket_plan())
        &&& grew_by(found.select, self.select_log(), self.steps(), 0, select_level())
        &&& grew_by(found.bus, self.bus_log(), self.steps(), 0, bus_frame())
    }

    /// The bus and the select pin can both fail here.
    open spec fn reports(fault: DataError) -> bool {
        fault.is_transport()
    }

    /// Transfers the frame over the bus with the select line held low around it. A
    /// frame that completed took the three steps of [`bracketed_transfer`]; one that
    /// failed took them up to the step that failed, and the error tells a failure of
    /// the bus from one of the select pin. The select pin and the bus were asked for
    /// these steps, and for nothing else.
    fn write_raw_bytes(&mut self, bytes: &[u8]) -> (r: Result<(), DataError>)
        ensures
            final(self).wired_since(*old(self)),
            r is Ok ==> final(self).steps() == old(self).steps() + completed(
                bracketed_transfer(bytes@),
            ),
            r matches Err(e) ==> exists|k: int|
                #[trigger] broke_off_at(
                    old(self).steps(),
                    final(self).steps(),
                    bracketed_transfer(bytes@),
                    k,
                    e,
                ) && e == step_fault(k),
    {
        let r = self.bracket(bytes);
        let ghost bracketed = *self;
        self.transfers = Ghost(self.transfers@.push(attempt(bytes@, r)));
        assert(self.steps() == bracketed.steps());
        assert(self.select_log() == bracketed.select_log());
        assert(self.bus_log() == bracketed.bus_log());
        proof {
            if r is Err {
                let e = r->Err_0;
                let k = choose|k: int|
                    #[trigger] broke_off_at(
                        old(self).steps(),
                        self.steps(),
                        bracketed_transfer(bytes@),
                        k,
                        e,
                    ) && e == step_fault(k);
                assert(broke_off(old(self).steps(), self.steps(), bracketed_transfer(bytes@), e));
            }
            assert forall|found: BracketLogs|
                old(self).consistent(found) implies #[trigger] self.consistent(found) by {
                lemma_accounts_for_next_transfer(
                    old(self).steps(),
                    self.steps(),
                    old(self).transfers(),
                    bracket_plan(),
                    bytes@,
                    r,
                );
                lemma_log_begins_as_before(
                    old(self).steps(),
                    self.steps(),
                    bracketed_transfer(bytes@),
                    r,
                );
                lemma_grew_by_chain(
                    found.select,
                    old(self).select_log(),
                    self.select_log(),
                    old(self).steps(),
                    self.steps(),
                    select_level(),
                );
                lemma_grew_by_chain(
                    found.bus,
                    old(self).bus_log(),
                    self.bus_log(),
                    old(self).steps(),
                    self.steps(),
                    bus_frame(),
                );
            }
        }
        r
    }
}

} // verus!
