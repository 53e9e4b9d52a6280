//! The chip's register map, its decode modes, and the driver's error type.

use vstd::prelude::*;

verus! {

/// The registers of the display chip. A frame names one of them by its address byte.
#[derive(Clone, Copy, Debug, PartialEq, Eq, Structural)]
pub enum Command {
    Noop,
    Digit0,
    Digit1,
    Digit2,
    Digit3,
    Digit4,
    Digit5,
    Digit6,
    Digit7,
    DecodeMode,
    Intensity,
    ScanLimit,
    Power,
    DisplayTest,
}

impl Command {
    /// The address byte of the register.
    pub open spec fn spec_code(self) -> u8 {
        match self {
            Command::Noop => 0x00,
            Command::Digit0 => 0x01,
            Command::Digit1 => 0x02,
            Command::Digit2 => 0x03,
            Command::Digit3 => 0x04,
            Command::Digit4 => 0x05,
            Command::Digit5 => 0x06,
            Command::Digit6 => 0x07,
            Command::Digit7 => 0x08,
            Command::DecodeMode => 0x09,
            Command::Intensity => 0x0A,
            Command::ScanLimit => 0x0B,
            Command::Power => 0x0C,
            Command::DisplayTest => 0x0F,
        }
    }

    /// The address byte of the register.
    #[verifier::when_used_as_spec(spec_code)]
    pub fn code(self) -> (c: u8)
        ensures
            c == self.spec_code(),
    {
        match self {
            Command::Noop => 0x00,
            Command::Digit0 => 0x01,
            Command::Digit1 => 0x02,
            Command::Digit2 => 0x03,
            Command::Digit3 => 0x04,
            Command::Digit4 => 0x05,
            Command::Digit5 => 0x06,
            Command::Digit6 => 0x07,
            Command::Digit7 => 0x08,
            Command::DecodeMode => 0x09,
            Command::Intensity => 0x0A,
            Command::ScanLimit => 0x0B,
            Command::Power => 0x0C,
            Command::DisplayTest => 0x0F,
        }
    }
}

/// How the chip reads the digit registers: as raw segment patterns, or as Code-B
/// values that its own decoder turns into segments, digit by digit.
#[derive(Clone, Copy, Debug, PartialEq, Eq, Structural)]
pub enum DecodeMode {
    /// Every digit register holds a segment pattern.
    NoDecode,
    /// Digit 0 is decoded, the others hold segment patterns.
    CodeBDigit0,
    /// Digits 3 to 0 are decoded.
    CodeBDigits3_0,
    /// All eight digits are decoded.
    CodeBDigits7_0,
}

impl DecodeMode {
    /// The value of the decode-mode register that selects this mode: one bit per
    /// decoded digit.
    pub open spec fn spec_code(self) -> u8 {
        match self {
            DecodeMode::NoDecode => 0x00,
            DecodeMode::CodeBDigit0 => 0x01,
            DecodeMode::CodeBDigits3_0 => 0x0F,
            DecodeMode::CodeBDigits7_0 => 0xFF,
        }
    }

    /// The value of the decode-mode register that selects this mode.
    #[verifier::when_used_as_spec(spec_code)]
    pub fn code(self) -> (c: u8)
        ensures
            c == self.spec_code(),
    {
        match self {
            DecodeMode::NoDecode => 0x00,
            DecodeMode::CodeBDigit0 => 0x01,
            DecodeMode::CodeBDigits3_0 => 0x0F,
            DecodeMode::CodeBDigits7_0 => 0xFF,
        }
    }
}

/// Why an operation on the chain did not complete.
#[derive(Clone, Copy, Debug, PartialEq, Eq, Structural)]
pub enum DataError {
    /// A bulk transfer over the serial bus failed.
    Spi,
    /// Driving an output pin failed.
    Pin,
    /// The address names no device of the chain; nothing was transmitted.
    AddressOutOfRange,
}

impl DataError {
    /// Whether the error was raised by the transport, as opposed to the driver's own
    /// check of the address.
    pub open spec fn is_transport(self) -> bool {
        self == DataError::Spi || self == DataError::Pin
    }
}

/// Every register address fits the low nibble of the address byte, and distinct
/// registers have distinct addresses.
pub proof fn lemma_command_codes(a: Command, b: Command)
    ensures
        a.spec_code() <= 0x0F,
        a.spec_code() == b.spec_code() <==> a == b,
{
}

/// Distinct decode modes are selected by distinct register values.
pub proof fn lemma_decode_mode_codes(a: DecodeMode, b: DecodeMode)
    ensures
        a.spec_code() == b.spec_code() <==> a == b,
{
}

} // verus!
