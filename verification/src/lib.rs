//! Core event pipeline for a two-half split mechanical keyboard.
//!
//! The pipeline turns raw switch samples into USB boot-keyboard reports:
//! matrix samples are debounced into press/release events, events cross the
//! inter-half serial link as fixed four-byte frames, a layered key-resolution
//! state machine turns events into the set of active keycodes, and a report
//! builder projects that set into the fixed eight-byte HID report.
//!
//! Hardware access (pin reads, serial and USB transfers, interrupt wiring)
//! lives outside this crate; everything here is pure logic over plain values.

pub mod codec;
pub mod debounce;
pub mod engine;
pub mod event;
pub mod grid;
pub mod laws;
pub mod link;
pub mod report;
