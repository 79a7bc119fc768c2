//! Generator of declarative pin-mapping blocks for a family of
//! microcontroller GPIO peripherals.
//!
//! The pipeline turns a list of GPIO IP-block descriptions ([`types::Ip`])
//! into text blocks guarded by conditional-compilation directives: each
//! IP version is resolved to a feature tag, pins are grouped by port and
//! filtered, every pin's alternate functions are extracted, rendered as
//! lines, and the resulting records are merged (first by identical body,
//! then by identical feature-tag set) before emission.

pub mod afn;
pub mod feature;
pub mod merge;
pub mod pipeline;
pub mod ports;
pub mod render;
pub mod strutil;
pub mod types;
