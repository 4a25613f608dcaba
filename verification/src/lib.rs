//! Append-only logging to a FAT16 volume on a block-addressed card.
//!
//! The crate is layered leaf-first:
//!
//! * [`bus`] states what a card on a serial bus does, sector by sector;
//!   [`memcard`] is a card held in memory that follows it.
//! * [`transport`] owns a bus and turns it into `read_block` / `write_block`,
//!   running the card's initialisation handshake once per session.
//! * [`volume`] reads the partition table and the boot sector.
//! * [`fat`], [`dir`] and [`data`] read and update the allocation table, the
//!   root directory and the data region; [`file`] opens, closes and reads
//!   files of the root directory, and [`append`] appends to them.
//! * [`clock`] and [`name`] hold timestamps and file names in their stored
//!   forms.
//! * [`harness`] is the probe loop's state machine.
//! * [`laws`] proves what the operations guarantee together.
pub mod append;
pub mod block;
pub mod bus;
pub mod clock;
pub mod data;
pub mod dir;
pub mod error;
pub mod fat;
pub mod file;
pub mod harness;
pub mod laws;
pub mod memcard;
pub mod name;
pub mod transport;
pub mod volume;
