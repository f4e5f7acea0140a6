//! Verified core of a replicated atomic register and of the module executor
//! that hosts it.
//!
//! A register is a flat array of sectors of 4096 bytes, kept by a fixed set
//! of processes so that every sector reads as if there were one copy of it.
//! This library holds what the processes decide and compute; sockets, files
//! and tasks stand around it.
//!
//! - [`transfer`], [`message`], [`mac`]: the frames on the wire.
//! - [`register`]: the register of one worker, step by step;
//!   [`cluster`], [`progress`] and [`schedule`]: the registers of all
//!   processes together.
//! - [`sectors`], [`storage`]: how sectors and values lie on disk.
//! - [`client`], [`runtime`]: where messages go and what a process does with
//!   what a connection brings.
//! - [`executor`]: the turns of a module's task and the queue that feeds
//!   it, on the channel of [`channel`].
//! - [`chord`], [`editor`], [`fibonacci`]: identifiers on a ring, edits of a
//!   shared text, Fibonacci numbers.

pub mod ascii;
pub mod buffer;
pub mod channel;
pub mod chord;
pub mod client;
pub mod cluster;
pub mod domain;
pub mod editor;
pub mod endian;
pub mod executor;
pub mod executor_laws;
pub mod fibonacci;
pub mod mac;
pub mod message;
pub mod progress;
pub mod register;
pub mod register_laws;
pub mod runtime;
pub mod schedule;
pub mod sectors;
pub mod storage;
pub mod transfer;
pub mod transfer_laws;
