//! The error union surfaced at the application's outermost layer.

use vstd::prelude::*;
use crate::interpolation;

verus! {

/// One of the failure kinds the outermost layer reports. The formatting
/// failure carries no detail of its own; the I/O and number-parse kinds
/// carry the description supplied by the caller that met them.
#[derive(Debug)]
pub enum AppError {
    Fmt,
    Interpolation(interpolation::Error),
    Io(String),
    Parse(String),
}

impl From<interpolation::Error> for AppError {
    fn from(e: interpolation::Error) -> (r: AppError) {
        AppError::Interpolation(e)
    }
}

impl vstd::std_specs::convert::FromSpecImpl<interpolation::Error> for AppError {
    open spec fn obeys_from_spec() -> bool {
        true
    }

    open spec fn from_spec(e: interpolation::Error) -> AppError {
        AppError::Interpolation(e)
    }
}

} // verus!
