//! etch341: SPI NOR / I²C EEPROM flash programming over a CH341A bridge.
pub mod bytes;
pub mod ch341;
pub mod chipdb;
pub mod detect;
pub mod eeprom;
pub mod cli;
pub mod diff;
pub mod digest;
pub mod error;
pub mod flash;
pub mod i2c;
pub mod i2c_ops;
pub mod ifd;
pub mod inspect;
pub mod ops;
pub mod present;
pub mod programmer;
pub mod report;
pub mod sfdp;
pub mod spi;
pub mod text;
pub mod views;
pub mod usb;
