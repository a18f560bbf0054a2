//! The top-level error of a control session.

use vstd::prelude::*;
use crate::fan_control;
use crate::interpolation;

verus! {

/// Everything that can end a session before or during the loop.
#[derive(Debug)]
pub enum Error {
    /// A failure outside the more specific kinds; carries its description.
    Other(&'static str),
    /// The device-class directory could not be read; carries the
    /// operator message from the caller that did the I/O.
    NoHwmonDir(String),
    /// No directory passed the discovery predicate.
    NoAmdGpuHwmon,
    FanControl(fan_control::Error),
    Interpolation(interpolation::Error),
}

impl From<fan_control::Error> for Error {
    fn from(e: fan_control::Error) -> (r: Error) {
        Error::FanControl(e)
    }
}

impl vstd::std_specs::convert::FromSpecImpl<fan_control::Error> for Error {
    open spec fn obeys_from_spec() -> bool {
        true
    }

    open spec fn from_spec(e: fan_control::Error) -> Error {
        Error::FanControl(e)
    }
}

impl From<interpolation::Error> for Error {
    fn from(e: interpolation::Error) -> (r: Error) {
        Error::Interpolation(e)
    }
}

impl vstd::std_specs::convert::FromSpecImpl<interpolation::Error> for Error {
    open spec fn obeys_from_spec() -> bool {
        true
    }

    open spec fn from_spec(e: interpolation::Error) -> Error {
        Error::Interpolation(e)
    }
}

} // verus!
