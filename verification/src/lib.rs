//! A driver for chained MAX7219 display chips.
//!
//! The chip drives eight seven-segment digits and is programmed by sixteen-bit register
//! writes that are shifted through a chain of up to eight devices. [`MAX7219`] turns
//! commands into frames for one device of the chain and sends them through a
//! [`connectors::Connector`], of which there are three: [`connectors::PinConnector`]
//! toggles three output pins itself, [`connectors::SpiConnector`] and
//! [`connectors::SpiConnectorSW`] use a serial bus.
//!
//! What every operation sends is stated over the frames of [`plan`] and the logs of
//! [`trace`]; [`encoding`] holds the character tables and the number formatting, and
//! [`registers`] the register map. Where the caller has to wait on its transport, a
//! [`sequencer::Sequencer`] gives the frames of each operation for the caller to send.

pub mod connectors;
pub mod driver;
pub mod encoding;
pub mod plan;
pub mod registers;
pub mod sequencer;
pub mod trace;

pub use crate::driver::MAX7219;
pub use crate::registers::{Command, DataError, DecodeMode};
