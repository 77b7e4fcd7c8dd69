//! Readers, formatters and per-tick state of a terminal dashboard for a
//! self-hosted CI runner.
pub mod cadence;
pub mod probe;
pub mod text;
pub mod fmt;
pub mod cpu;
pub mod mem;
pub mod net;
pub mod psi;
pub mod host;
pub mod jobs;
pub mod therm;
pub mod cli;
pub mod ui;
pub mod view;
