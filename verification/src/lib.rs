//! Multi-monitor layout planning.
//!
//! The library turns terse per-monitor directive strings (such as `1Lx300y0fp`)
//! into structured layout records (`layout`), scans the probe listing of the
//! attached outputs into monitor records (`monitors`), pairs directives with
//! monitors and validates the whole setup (`setup`), and emits the ordered
//! argument groups for the external display-configuration command (`output`).
//! Character and text scanning helpers live in `chars` and `text`.
//!
//! Spawning the external commands, and everything else that touches the
//! outside world, is left to the binary around the library.

pub mod chars;
pub mod layout;
pub mod monitors;
pub mod output;
pub mod setup;
pub mod text;
