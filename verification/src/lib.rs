//! Verified core of a terminal system-status dashboard: proportional text
//! bars with largest-remainder width allocation, greedy label fitting with
//! centered padding, human-readable unit formatting over an exact
//! single-precision arithmetic model, an ANSI style model, per-section
//! renderers, and the pure decision logic of the section orchestrator.

pub mod bar;
pub mod disk;
pub mod fmt;
pub mod fp;
pub mod load;
pub mod mem;
pub mod net;
pub mod section;
pub mod style;
pub mod systemd;
pub mod temp;
pub mod text;
