//! Code locations of violations.
use vstd::prelude::*;

use crate::text::push_str;
use crate::utils::{decimal, decimal_of};

verus! {

/// A code location.
#[derive(Clone, Debug, PartialEq, Eq)]
pub enum Location {
    /// A line inside a file.
    Code(String, usize),
    /// A file.
    File(String),
}

/// A code location as a mathematical value.
pub enum SpecLocation {
    /// A line inside a file.
    Code(Seq<char>, usize),
    /// A file.
    File(Seq<char>),
}

impl View for Location {
    type V = SpecLocation;

    open spec fn view(&self) -> SpecLocation {
        match self {
            Location::Code(f, l) => SpecLocation::Code(f@, *l),
            Location::File(f) => SpecLocation::File(f@),
        }
    }
}

/// The file of a location.
pub open spec fn file_of(l: SpecLocation) -> Seq<char> {
    match l {
        SpecLocation::Code(f, _) => f,
        SpecLocation::File(f) => f,
    }
}

/// A location as text: the file, and the line after a colon.
pub open spec fn location_text(l: SpecLocation) -> Seq<char> {
    match l {
        SpecLocation::Code(f, line) => f + ":"@ + decimal_of(line as nat),
        SpecLocation::File(f) => f,
    }
}

impl Location {
    /// The file of this location.
    pub fn file(&self) -> (res: &str)
        ensures
            res@ == file_of(self@),
    {
        match self {
            Location::Code(f, _) => f.as_str(),
            Location::File(f) => f.as_str(),
        }
    }

    /// This location as text.
    pub fn to_string(&self) -> (res: String)
        ensures
            res@ == location_text(self@),
    {
        match self {
            Location::Code(f, line) => {
                let mut s = String::new();
                push_str(&mut s, f.as_str());
                push_str(&mut s, ":");
                let d = decimal(*line);
                push_str(&mut s, d.as_str());
                s
            },
            Location::File(f) => f.clone(),
        }
    }
}

} // verus!
