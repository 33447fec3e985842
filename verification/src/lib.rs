//! Persistent record store of an access-control terminal.
//!
//! The crate keeps a fixed number of authorised chips and access logs in
//! memory, packs them into a byte-exact image and moves that image to and
//! from non-volatile memory through a register-level storage driver.
//!
//! - `record` and `store` hold the records, the store and its image;
//! - `bus` is the register interface that all hardware access goes through;
//! - `driver` is the interface of a storage driver, with two backends:
//!   `mapped` for a memory-mapped region and `flash` for a NOR flash chip
//!   that is driven by commands;
//! - `sim` is a flash chip in memory, to run the flash driver against;
//! - `wire` fixes the byte order, `error` names what can go wrong.

pub mod bus;
pub mod driver;
pub mod error;
pub mod flash;
pub mod mapped;
pub mod record;
pub mod sim;
pub mod store;
pub mod wire;
