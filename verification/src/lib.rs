//! A verified core for a command-line client of a Chinese/Taiwanese
//! dictionary web service.
//!
//! The crate carries the two subsystems worth proving things about: the
//! response-normalization engine, which reshapes the service's loosely
//! structured JSON into a strict domain model with per-field failure
//! isolation, and the console command/mode state machine, which merges
//! persistent session toggles with per-invocation flags and picks a query
//! mode.  Network transport, script conversion and rendering are left to the
//! surrounding program.

pub mod api;
pub mod console;
pub mod idxmap;
pub mod json;
pub mod text;
