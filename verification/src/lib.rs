//! Protocol driver for the VS1053 audio decoder chip.
//!
//! The chip sits on a shared SPI bus with two chip-select lines (XCS for
//! command traffic, XDCS for data traffic) and a data-ready input (DREQ).
//! All hardware access goes through the [`bus::BusPort`] trait; the driver
//! itself is pure protocol logic, specified and verified against the
//! sequence of bus operations that a port records.

pub mod bus;
pub mod chunks;
pub mod driver;
pub mod sim;
pub mod volume;
