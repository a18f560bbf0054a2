//! Verified core of a small fan controller for amdgpu hwmon devices.
//!
//! The library holds everything the controller decides or computes: the
//! piecewise-linear curve interpolator and the parser that builds its table
//! from a textual curve description, the byte-level protocols spoken over
//! the hwmon control files, the guard that makes reverting manual fan
//! control an exactly-once action, and the control-loop state machine.
//! The surrounding binary performs the file and signal I/O and feeds plain
//! values in and out of these functions.

pub mod app_error;
pub mod config;
pub mod error;
pub mod fan_control;
pub mod hwmon;
pub mod interpolation;
pub mod mode;
pub mod parse;
pub mod pwm_writer;
pub mod temperature_reader;
