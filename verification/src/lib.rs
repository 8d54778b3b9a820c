//! Chronophotography compositing: a disk-backed time-slicing store and a
//! per-pixel statistical outlier/background compositing engine.

pub mod chrono;
pub mod color;
pub mod fixed;
pub mod flist;
pub mod img_stream;
pub mod imgstream;
pub mod layout;
pub mod options;
pub mod rng;
pub mod shake;
pub mod simple;
pub mod slicer;
pub mod streams;

use vstd::prelude::*;

verus! {

/// Error type for failed parsing of `String`s to `enum`s.
#[derive(Debug, Clone, PartialEq, Eq)]
pub struct ParseEnumError(pub String);

impl ParseEnumError {
    /// The error message.
    pub fn message(&self) -> (r: String)
        ensures
            r@ == self.0@,
    {
        self.0.clone()
    }
}

/// Error type for failed parsing of `String`s to a run option.
#[derive(Debug, Clone, PartialEq, Eq)]
pub struct ParseOptionError(pub String);

impl ParseOptionError {
    /// The error message.
    pub fn message(&self) -> (r: String)
        ensures
            r@ == self.0@,
    {
        self.0.clone()
    }
}

/// Error type for failed parsing of `String`s to an option array.
#[derive(Debug, Clone, PartialEq, Eq)]
pub struct ParseArrayError(pub String);

impl ParseArrayError {
    /// The error message.
    pub fn message(&self) -> (r: String)
        ensures
            r@ == self.0@,
    {
        self.0.clone()
    }
}

/// Error type for failed validation of command-line arguments.
#[derive(Debug, Clone, PartialEq, Eq)]
pub struct ParseCliError(pub String);

impl ParseCliError {
    /// The error message.
    pub fn message(&self) -> (r: String)
        ensures
            r@ == self.0@,
    {
        self.0.clone()
    }
}

} // verus!
