//! Capture, project and control a digital piano over MIDI.

pub mod calendar;
pub mod capture;
pub mod cli;
pub mod complaints;
pub mod event;
pub mod follow;
pub mod hex;
pub mod map;
pub mod metrics;
pub mod online;
pub mod ports;
pub mod profile;
pub mod render;
pub mod seq;
pub mod sink;
pub mod smf;
pub mod sysex;
pub mod tail;
pub mod text;
