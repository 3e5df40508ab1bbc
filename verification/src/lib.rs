//! Sampling and rendering for a non-interactive Linux system monitor.
//!
//! A frame is made of blocks. Each block takes in what a tick has read of
//! the kernel's files, keeps what it needs to tell rates from counters, and
//! renders its part of the frame as bytes. Nothing in this crate reads a
//! file or asks the system anything: the program around it does, and hands
//! over what it found.
//!
//! - [`common`]: the settings, the typed quantities, headings, line ends
//!   and threshold colours, and the trait of all blocks.
//! - [`text`], [`decimal`], [`parse`], [`sanitize`]: text as bytes.
//! - [`rate`], [`tracker`], [`ordered`], [`queue`]: counters between two
//!   samples, entities that come and go between ticks, held by name or by
//!   number, and the priority queue of the task selector.
//! - [`mem`], [`pressure`], [`cpu`], [`network`], [`blockdev`], [`fs`],
//!   [`hwmon`], [`tasks`]: the blocks.
//! - [`layout`]: two blocks side by side.
//! - [`driver`]: what the tick driver decides.

pub mod blockdev;
pub mod common;
pub mod cpu;
pub mod decimal;
pub mod driver;
pub mod fs;
pub mod hwmon;
pub mod layout;
pub mod mem;
pub mod network;
pub mod ordered;
pub mod parse;
pub mod pressure;
pub mod queue;
pub mod rate;
pub mod sanitize;
pub mod tasks;
pub mod text;
pub mod tracker;
